//! The NTLM side of the bridge: reading the upstream's challenge out of its
//! `WWW-Authenticate` header and building the Negotiate and Authenticate
//! headers of the handshake.
use vstd::prelude::*;
use vstd::string::*;
use vstd::utf8::*;

use crate::auth;
use crate::auth::{CredentialsView, NtlmCredentials};
use crate::config;
use crate::crypto;
use crate::error::BridgeError;
use crate::text;
use crate::text::chars_of;

verus! {

broadcast use vstd::utf8::encode_utf8_decode_utf8, vstd::utf8::encode_utf8_valid_utf8;

/// The payload of one comma-separated part of a `WWW-Authenticate` value:
/// the part trimmed must start with `NTLM ` (ASCII case ignored); the rest,
/// trimmed, is the payload.
pub open spec fn part_payload(part: Seq<char>) -> Option<Seq<char>> {
    match auth::ascii_prefix_rest(text::trim(part), "NTLM "@) {
        Some(rest) => Some(text::trim(decode_utf8(rest))),
        None => None,
    }
}

/// The payload of the first part of `s` that has one.
pub open spec fn first_part_payload(s: Seq<char>) -> Option<Seq<char>>
    decreases s.len(),
{
    if exists|i: int| auth::is_first(s, ',', i) {
        let i = choose|i: int| auth::is_first(s, ',', i);
        match part_payload(s.subrange(0, i)) {
            Some(p) => Some(p),
            None => first_part_payload(s.subrange(i + 1, s.len() as int)),
        }
    } else {
        part_payload(s)
    }
}

/// The NTLM payload of a `WWW-Authenticate` value, where the first part
/// that starts with `NTLM ` carries a non-empty one.
pub open spec fn ntlm_payload(header: Seq<char>) -> Option<Seq<char>> {
    match first_part_payload(header) {
        Some(p) => if p.len() > 0 {
            Some(p)
        } else {
            None
        },
        None => None,
    }
}

/// `header.substring(lo, hi)` trimmed, borrowed from `header`.
fn trimmed_part<'a>(header: &'a str, v: &Vec<char>, lo: usize, hi: usize) -> (r: &'a str)
    requires
        v@ == header@,
        lo <= hi <= v@.len(),
    ensures
        r@ == text::trim(header@.subrange(lo as int, hi as int)),
{
    let (a, b) = text::trim_bounds(v.as_slice(), lo, hi);
    header.substring_char(a, b)
}

/// The first `c` in `v[start..]`.
fn find_char_from(v: &[char], start: usize, c: char) -> (r: Option<usize>)
    requires
        start <= v@.len(),
    ensures
        match r {
            Some(i) => start <= i < v@.len() && v@[i as int] == c && forall|k: int| start <= k < i ==> v@[k] != c,
            None => forall|k: int| start <= k < v@.len() ==> v@[k] != c,
        },
{
    let mut i = start;
    while i < v.len()
        invariant
            start <= i <= v@.len(),
            forall|k: int| start <= k < i ==> v@[k] != c,
        decreases v.len() - i,
    {
        if v[i] == c {
            return Some(i);
        }
        i = i + 1;
    }
    None
}

/// The NTLM payload of a `WWW-Authenticate` value such as
/// `Negotiate, NTLM <base64>`.
pub fn extract_ntlm_payload(header: &str) -> (r: Option<&str>)
    ensures
        match r {
            Some(p) => ntlm_payload(header@) == Some(p@),
            None => ntlm_payload(header@) == None::<Seq<char>>,
        },
{
    let v = chars_of(header);
    let n = v.len();
    let mut start: usize = 0;
    assert(header@.subrange(0, n as int) =~= header@);
    loop
        invariant
            v@ == header@,
            n == v@.len(),
            start <= n,
            first_part_payload(header@) == first_part_payload(header@.subrange(start as int, n as int)),
        decreases n - start,
    {
        let ghost s = header@.subrange(start as int, n as int);
        let comma = find_char_from(v.as_slice(), start, ',');
        let end = match comma {
            Some(i) => i,
            None => n,
        };
        proof {
            match comma {
                Some(i) => {
                    assert(auth::is_first(s, ',', i - start));
                    let j = choose|j: int| auth::is_first(s, ',', j);
                    if j < i - start {
                        assert(s[j] == v@[start + j]);
                    } else if j > i - start {
                        assert(s[i - start] == ',');
                    }
                    assert(s.subrange(0, i - start) =~= header@.subrange(start as int, i as int));
                    assert(s.subrange(i - start + 1, s.len() as int) =~= header@.subrange(i + 1, n as int));
                },
                None => {
                    assert forall|j: int| !auth::is_first(s, ',', j) by {
                        if 0 <= j < s.len() {
                            assert(s[j] == v@[start + j]);
                        }
                    }
                },
            }
        }
        let part = trimmed_part(header, &v, start, end);
        match auth::strip_ascii_prefix(part, "NTLM ") {
            Some(rest) => {
                proof {
                    assert(decode_utf8(encode_utf8(rest@)) == rest@);
                }
                let rv = chars_of(rest);
                let (a, b) = text::trim_bounds(rv.as_slice(), 0, rv.len());
                assert(rv@.subrange(0, rv@.len() as int) =~= rv@);
                let payload = rest.substring_char(a, b);
                if payload.is_empty() {
                    return None;
                }
                return Some(payload);
            },
            None => {
                match comma {
                    Some(i) => {
                        start = i + 1;
                    },
                    None => {
                        return None;
                    },
                }
            },
        }
    }
}

/// `NEGOTIATE_UNICODE` of the NTLM flags (MS-NLMP): strings are UTF-16LE.
pub const NEGOTIATE_UNICODE: u32 = 0x0000_0001;
/// `REQUEST_TARGET` of the NTLM flags.
pub const REQUEST_TARGET: u32 = 0x0000_0004;
/// `NEGOTIATE_NTLM` of the NTLM flags.
pub const NEGOTIATE_NTLM: u32 = 0x0000_0200;
/// `NEGOTIATE_DOMAIN_SUPPLIED` of the NTLM flags.
pub const NEGOTIATE_DOMAIN_SUPPLIED: u32 = 0x0000_1000;
/// `NEGOTIATE_WORKSTATION_SUPPLIED` of the NTLM flags.
pub const NEGOTIATE_WORKSTATION_SUPPLIED: u32 = 0x0000_2000;
/// `NEGOTIATE_NTLM2_KEY` of the NTLM flags.
pub const NEGOTIATE_NTLM2_KEY: u32 = 0x0008_0000;

/// The flags of the Negotiate message: Unicode, target requested, NTLM,
/// workstation supplied, NTLM2 key, and domain supplied where there is one.
pub open spec fn negotiate_flags(domain: Seq<char>) -> u32 {
    if domain.len() == 0 {
        0x0008_2205
    } else {
        0x0008_3205
    }
}

/// The flags of the Authenticate message: Unicode, NTLM, NTLM2 key.
pub open spec fn authenticate_flags() -> u32 {
    0x0008_0201
}

/// The number of UTF-16 code units that encode `s`.
pub open spec fn utf16_len(s: Seq<char>) -> nat
    decreases s.len(),
{
    if s.len() == 0 {
        0
    } else {
        utf16_len(s.drop_last()) + (if (s.last() as u32) >= 0x10000 {
            2nat
        } else {
            1nat
        })
    }
}

/// Whether `s` fits in an NTLM message field: its UTF-16LE bytes take at
/// most 65535 bytes, the largest length a field's 16-bit length can hold.
pub open spec fn fits_ntlm_field(s: Seq<char>) -> bool {
    2 * utf16_len(s) <= 65535
}

/// Whether `s` fits in an NTLM message field.
pub fn ntlm_field_fits(s: &str) -> (r: bool)
    ensures
        r == fits_ntlm_field(s@),
{
    let v = chars_of(s);
    let mut units: u64 = 0;
    let mut i: usize = 0;
    while i < v.len()
        invariant
            v@ == s@,
            i <= v@.len(),
            units == utf16_len(v@.subrange(0, i as int)),
            2 * units <= 65535,
        decreases v.len() - i,
    {
        assert(v@.subrange(0, i + 1).drop_last() =~= v@.subrange(0, i as int));
        if (v[i] as u32) >= 0x10000 {
            units = units + 2;
        } else {
            units = units + 1;
        }
        i = i + 1;
        if 2 * units > 65535 {
            proof {
                lemma_utf16_len_prefix(s@, i as int);
            }
            return false;
        }
    }
    assert(v@.subrange(0, v@.len() as int) =~= v@);
    true
}

proof fn lemma_utf16_len_prefix(s: Seq<char>, i: int)
    requires
        0 <= i <= s.len(),
    ensures
        utf16_len(s.subrange(0, i)) <= utf16_len(s),
    decreases s.len() - i,
{
    if i < s.len() {
        lemma_utf16_len_prefix(s, i + 1);
        assert(s.subrange(0, i + 1).drop_last() =~= s.subrange(0, i));
    } else {
        assert(s.subrange(0, i) =~= s);
    }
}

/// `x` as two little-endian bytes.
pub open spec fn le16_bytes(x: int) -> Seq<u8> {
    seq![(x % 256) as u8, ((x / 256) % 256) as u8]
}

/// `x` as four little-endian bytes.
pub open spec fn le32_bytes(x: int) -> Seq<u8> {
    le16_bytes(x % 65536) + le16_bytes(x / 65536)
}

/// The UTF-16LE bytes of `s`, as NTLM carries strings under the Unicode flag.
pub open spec fn utf16le(s: Seq<char>) -> Seq<u8> {
    config::utf16_bytes(text::encode_utf16(s), config::ByteOrder::LittleEndian)
}

/// The header of an NTLM field: its length twice (length and capacity) and
/// the offset of its data in the message.
pub open spec fn field_header(len: int, offset: int) -> Seq<u8> {
    le16_bytes(len) + le16_bytes(len) + le32_bytes(offset)
}

/// The Negotiate message an NTLM client sends with these flags, domain and
/// workstation, as `ntlmclient` encodes it with the Unicode flag: the
/// signature, type 1, the flags, the domain's and the workstation's field
/// headers, an all-zero OS version, then the domain's and the
/// workstation's UTF-16LE bytes (data starting at byte 40).
pub open spec fn ntlm_negotiate_bytes(flags: u32, domain: Seq<char>, workstation: Seq<char>) -> Seq<u8> {
    let d = utf16le(domain);
    let w = utf16le(workstation);
    ntlm_signature() + le32_bytes(1) + le32_bytes(flags as int) + field_header(d.len() as int, 40) + field_header(
        w.len() as int,
        40 + d.len() as int,
    ) + seq![0u8, 0u8, 0u8, 0u8, 0u8, 0u8, 0u8, 0u8] + d + w
}

/// Encodes a Negotiate message.
///
/// Trusted: builds an `ntlmclient::NegotiateMessage` (default OS version)
/// and calls `Message::to_bytes`. The contract claims the result is the
/// layout `ntlm_negotiate_bytes` gives (`Message::to_bytes`,
/// `NegotiateMessage::to_bytes`, `append_sec_buffer_string` under the
/// Unicode flag, `SecurityBuffer::to_bytes`, `OsVersion::default`), and
/// that encoding succeeds (with the Unicode flag set `to_bytes` fails
/// nowhere). `requires` leaves out fields
/// whose encoding exceeds the 16-bit length, where `to_bytes` panics.
#[verifier::external_body]
fn negotiate_message_bytes(flags: u32, domain: &str, workstation: &str) -> (bytes: Result<Vec<u8>, String>)
    requires
        flags % 2 == 1,
        fits_ntlm_field(domain@),
        fits_ntlm_field(workstation@),
    ensures
        bytes is Ok,
        bytes matches Ok(b) ==> b@ == ntlm_negotiate_bytes(flags, domain@, workstation@),
        bytes matches Ok(b) ==> b@.len() >= 40,
{
    ntlmclient::Message::Negotiate(ntlmclient::NegotiateMessage {
        flags: ntlmclient::Flags::from_bits_retain(flags),
        supplied_domain: domain.to_string(),
        supplied_workstation: workstation.to_string(),
        os_version: Default::default(),
    }).to_bytes().map_err(|e| e.to_string())
}

/// The `Authorization` value that opens the NTLM handshake.
pub open spec fn negotiate_value(workstation: Seq<char>, domain: Seq<char>) -> Seq<char> {
    "NTLM "@ + crypto::base64_standard_encode(ntlm_negotiate_bytes(negotiate_flags(domain), domain, workstation))
}

fn ntlm_value(bytes: &[u8]) -> (v: String)
    ensures
        v@ == "NTLM "@ + crypto::base64_standard_encode(bytes@),
        crypto::is_base64_text(crypto::base64_standard_encode(bytes@)),
        crypto::base64_standard_encode(bytes@).len() == 4 * ((bytes@.len() + 2) / 3),
{
    let encoded = crypto::standard_encode(bytes);
    let mut value = String::from_str("NTLM ");
    value.append(encoded.as_str());
    value
}

/// The `Authorization: NTLM ...` value of the Negotiate message.
pub fn negotiate_header(workstation: &str, domain: &str) -> (r: Result<String, BridgeError>)
    requires
        fits_ntlm_field(workstation@),
        fits_ntlm_field(domain@),
    ensures
        r matches Ok(v) && v@ == negotiate_value(workstation@, domain@),
        r matches Ok(v) ==> ntlm_payload(v@) == Some(v@.subrange(5, v@.len() as int)),
{
    let mut flags = NEGOTIATE_UNICODE | REQUEST_TARGET | NEGOTIATE_NTLM | NEGOTIATE_WORKSTATION_SUPPLIED
        | NEGOTIATE_NTLM2_KEY;
    assert(NEGOTIATE_UNICODE | REQUEST_TARGET | NEGOTIATE_NTLM | NEGOTIATE_WORKSTATION_SUPPLIED
        | NEGOTIATE_NTLM2_KEY == 0x0008_2205u32) by (bit_vector);
    if !domain.is_empty() {
        assert(0x0008_2205u32 | NEGOTIATE_DOMAIN_SUPPLIED == 0x0008_3205u32) by (bit_vector);
        flags = flags | NEGOTIATE_DOMAIN_SUPPLIED;
    }
    let bytes = match negotiate_message_bytes(flags, domain, workstation) {
        Ok(b) => b,
        Err(e) => {
            let mut msg = String::from_str("encoding negotiate message: ");
            msg.append(e.as_str());
            return Err(BridgeError::Ntlm(msg));
        },
    };
    let v = ntlm_value(bytes.as_slice());
    proof {
        let t = crypto::base64_standard_encode(bytes@);
        reveal_strlit("NTLM ");
        assert(v@.subrange(5, v@.len() as int) =~= t);
        lemma_payload_of_base64(t);
    }
    Ok(v)
}

/// An `NTLM ` value whose Base64 text is not empty gives that text back as
/// its payload.
pub proof fn lemma_payload_of_base64(t: Seq<char>)
    requires
        crypto::is_base64_text(t),
        t.len() > 0,
    ensures
        ntlm_payload("NTLM "@ + t) == Some(t),
{
    reveal_strlit("NTLM ");
    let prefix = "NTLM "@;
    let s = prefix + t;
    assert(prefix.len() == 5);
    assert forall|i: int| 0 <= i < t.len() implies #[trigger] t[i] != ',' && !text::is_white_space(t[i]) && '\0'
        <= t[i] <= '\u{7f}' by {
        assert(crypto::is_base64_char(t[i]));
    }
    assert forall|i: int| !auth::is_first(s, ',', i) by {
        if 0 <= i < s.len() && i >= 5 {
            assert(s[i] == t[i - 5]);
        }
    }
    assert(first_part_payload(s) == part_payload(s));
    assert(!text::is_white_space(s[0]));
    assert(s.last() == t.last());
    assert(text::trim_start(s) == s);
    assert(text::trim_end(s) == s);
    assert(is_ascii_chars(s)) by {
        assert forall|i: int| 0 <= i < s.len() implies '\0' <= #[trigger] s[i] <= '\u{7f}' by {
            if i >= 5 {
                assert(s[i] == t[i - 5]);
            }
        }
    }
    is_ascii_chars_encode_utf8(s);
    is_ascii_chars_encode_utf8(prefix);
    let v = encode_utf8(s);
    assert(v[4] == s[4] as u8);
    text::lemma_boundary_after_ascii(v, 5);
    assert(text::bytes_eq_ignore_ascii_case(v.subrange(0, 5), encode_utf8(prefix))) by {
        assert forall|k: int| 0 <= k < 5 implies text::ascii_lower_byte(#[trigger] v.subrange(0, 5)[k])
            == text::ascii_lower_byte(encode_utf8(prefix)[k]) by {
            assert(v[k] == s[k] as u8);
            assert(s[k] == prefix[k]);
        }
    }
    assert(is_ascii_chars(t));
    is_ascii_chars_encode_utf8(t);
    assert(v.subrange(5, v.len() as int) =~= encode_utf8(t)) by {
        assert forall|k: int| 0 <= k < t.len() implies v.subrange(5, v.len() as int)[k] == encode_utf8(t)[k] by {
            assert(v[k + 5] == s[k + 5] as u8);
            assert(s[k + 5] == t[k]);
        }
    }
    assert(decode_utf8(encode_utf8(t)) == t);
    assert(!text::is_white_space(t[0]));
    assert(!text::is_white_space(t.last()));
    assert(text::trim_start(t) == t);
    assert(text::trim_end(t) == t);
}

/// What `ntlmclient` reads from a message that should be a Challenge.
pub enum ChallengeInfo {
    /// A Challenge: the 8-byte server challenge and the target information
    /// as its entries encode it.
    Challenge { server_challenge: Vec<u8>, target_info: Vec<u8> },
    /// A well-formed message of another type, by its number.
    Other(u32),
    /// No message: the display text of the parsing error.
    Invalid(String),
}

/// The contents of `ChallengeInfo`.
pub enum ChallengeInfoView {
    Challenge { server_challenge: Seq<u8>, target_info: Seq<u8> },
    Other(u32),
    Invalid(Seq<char>),
}

impl View for ChallengeInfo {
    type V = ChallengeInfoView;

    open spec fn view(&self) -> ChallengeInfoView {
        match self {
            ChallengeInfo::Challenge { server_challenge, target_info } => ChallengeInfoView::Challenge {
                server_challenge: server_challenge@,
                target_info: target_info@,
            },
            ChallengeInfo::Other(n) => ChallengeInfoView::Other(*n),
            ChallengeInfo::Invalid(e) => ChallengeInfoView::Invalid(e@),
        }
    }
}

/// The signature `NTLMSSP\0` that opens every NTLM message.
pub open spec fn ntlm_signature() -> Seq<u8> {
    seq![0x4Eu8, 0x54u8, 0x4Cu8, 0x4Du8, 0x53u8, 0x53u8, 0x50u8, 0x00u8]
}

/// The 16-bit little-endian number at `b[i..i + 2]`.
pub open spec fn le16(b: Seq<u8>, i: int) -> int {
    b[i] + 256 * b[i + 1]
}

/// The message type of an NTLM message: the 32-bit little-endian number
/// after the signature.
pub open spec fn message_type(b: Seq<u8>) -> int {
    le16(b, 8) + 65536 * le16(b, 10)
}

/// Whether `b` opens as an NTLM message: at least the signature and a type.
pub open spec fn has_ntlm_header(b: Seq<u8>) -> bool {
    b.len() >= 12 && b.subrange(0, 8) == ntlm_signature()
}

/// Whether `b` opens as a Challenge message: the signature, type 2 and the
/// fixed fields of a Challenge.
pub open spec fn is_challenge_message(b: Seq<u8>) -> bool {
    has_ntlm_header(b) && message_type(b) == 2 && b.len() >= 56
}

/// The length the target information field of a Challenge message gives
/// (bytes 40 and 41).
pub open spec fn target_info_len(b: Seq<u8>) -> int {
    le16(b, 40)
}

/// The 32-bit little-endian number at `b[i..i + 4]`.
pub open spec fn le32(b: Seq<u8>, i: int) -> int {
    le16(b, i) + 65536 * le16(b, i + 2)
}

/// Whether the data of the NTLM field whose header is at `h` (length at
/// `h`, offset at `h + 4`) lies within the message `b`: an empty field, or
/// one that starts after the 12-byte message header and ends within `b`.
pub open spec fn field_in_range(b: Seq<u8>, h: int) -> bool {
    le16(b, h) == 0 || (12 <= le32(b, h + 4) && le32(b, h + 4) < b.len() && le32(b, h + 4) + le16(b, h) <= b.len())
}

/// The data of the NTLM field whose header is at `h`.
pub open spec fn field_data(b: Seq<u8>, h: int) -> Seq<u8> {
    if le16(b, h) == 0 {
        Seq::empty()
    } else {
        b.subrange(le32(b, h + 4), le32(b, h + 4) + le16(b, h))
    }
}

/// Whether the Challenge message `b` asks for Unicode strings (bit 0 of the
/// flags at bytes 20 to 24).
pub open spec fn is_unicode_challenge(b: Seq<u8>) -> bool {
    b[20] % 2 == 1
}

/// Whether `t` is a run of well-formed target information entries: each a
/// 4-byte header (type, length) and that many bytes of data, the length
/// even, the entries filling `t`.
pub open spec fn target_info_entries_ok(t: Seq<u8>) -> bool
    decreases t.len(),
{
    if t.len() == 0 {
        true
    } else if t.len() < 4 {
        false
    } else {
        let l = le16(t, 2);
        &&& l % 2 == 0
        &&& 4 + l <= t.len()
        &&& target_info_entries_ok(t.subrange(4 + l, t.len() as int))
    }
}

/// Whether a Unicode Challenge message `b` is one `ntlmclient` reads: both
/// fields in range, the target name even-length valid UTF-16LE, and the
/// target information well-formed entries.
pub open spec fn challenge_parses(b: Seq<u8>) -> bool {
    &&& field_in_range(b, 12)
    &&& field_in_range(b, 40)
    &&& field_data(b, 12).len() % 2 == 0
    &&& text::decode_utf16(config::utf16_units(field_data(b, 12), config::ByteOrder::LittleEndian)) is Some
    &&& target_info_entries_ok(field_data(b, 40))
}

/// What can come of `ntlmclient` reading `bytes`: a Challenge only from a
/// Challenge message whose fields lie in range, with the server challenge
/// of bytes 24 to 32 and the bytes of the target information field;
/// another message's type number only from a message of that type; an
/// error never from a message of a type other than Negotiate, Challenge or
/// Authenticate; and for a Unicode Challenge message, a Challenge exactly
/// when `challenge_parses` holds.
pub open spec fn possible_challenge_parse(bytes: Seq<u8>, info: ChallengeInfoView) -> bool {
    match info {
        ChallengeInfoView::Challenge { server_challenge, target_info } => {
            &&& is_challenge_message(bytes)
            &&& field_in_range(bytes, 12)
            &&& field_in_range(bytes, 40)
            &&& server_challenge == bytes.subrange(24, 32)
            &&& target_info == field_data(bytes, 40)
            &&& is_unicode_challenge(bytes) ==> challenge_parses(bytes)
        },
        ChallengeInfoView::Other(n) => has_ntlm_header(bytes) && n == message_type(bytes) && n != 2,
        ChallengeInfoView::Invalid(_) => {
            &&& !has_ntlm_header(bytes) || (1 <= message_type(bytes) <= 3)
            &&& (is_challenge_message(bytes) && is_unicode_challenge(bytes)) ==> !challenge_parses(bytes)
        },
    }
}

/// Parses an NTLM message.
///
/// Trusted: calls `ntlmclient::Message::try_from`; a Challenge gives its
/// server challenge and its target information entries encoded back to
/// bytes (`TargetInfoEntry::to_bytes`), another message its number
/// (`message_number`), an error its display text. Without the Unicode flag
/// the target name is decoded in the system code page on Windows, so
/// nothing names the result. The contract claims what the source shows of
/// every outcome: short input or a wrong signature is an error; a type
/// other than 1, 2 or 3 is returned as that number; a Challenge comes only
/// from a type-2 message of at least 56 bytes whose two fields lie in range
/// (`SecurityBuffer::apply_to_slice`), its server challenge is bytes 24 to
/// 32 (`value[12..20]` after the 12-byte header), and its target
/// information is the field's bytes (each entry is written back with its
/// type, which `TargetInfoType` maps back to the same number, its length
/// and its data, and the entries fill the field). With the Unicode flag the
/// parse depends on the bytes alone: it gives a Challenge exactly when the
/// fields are in range, the target name is even-length valid UTF-16LE
/// (`utf16_le_bytes_to_string`) and the target information entries are
/// well formed (`TargetInfoEntry::try_from_bytes`).
#[verifier::external_body]
fn parse_challenge(bytes: &[u8]) -> (info: ChallengeInfo)
    ensures
        possible_challenge_parse(bytes@, info@),
{
    match ntlmclient::Message::try_from(bytes) {
        Ok(ntlmclient::Message::Challenge(c)) => ChallengeInfo::Challenge {
            server_challenge: c.challenge.to_vec(),
            target_info: c.target_information.iter().flat_map(|entry| entry.to_bytes()).collect(),
        },
        Ok(other) => ChallengeInfo::Other(other.message_number()),
        Err(e) => ChallengeInfo::Invalid(e.to_string()),
    }
}

/// The decimal digit for `n` (below 10).
pub open spec fn digit_char(n: nat) -> char {
    (48 + n) as u8 as char
}

/// `n` in decimal, as `{:?}` and `{}` print an unsigned integer.
pub open spec fn decimal(n: nat) -> Seq<char>
    decreases n,
{
    if n < 10 {
        seq![digit_char(n)]
    } else {
        decimal(n / 10) + seq![digit_char(n % 10)]
    }
}

/// Appends `n` in decimal to `v`.
pub fn push_decimal(v: &mut Vec<char>, n: u64)
    ensures
        final(v)@ == old(v)@ + decimal(n as nat),
    decreases n,
{
    if n >= 10 {
        push_decimal(v, n / 10);
    }
    v.push(((n % 10) as u8 + 48) as char);
    assert(final(v)@ =~= old(v)@ + decimal(n as nat));
}

/// The bytes of the upstream's NTLM message in a `WWW-Authenticate` value,
/// or why there are none (`None`: no NTLM payload; otherwise the NTLM error
/// message).
pub open spec fn challenge_payload(header: Seq<char>) -> Result<Seq<u8>, Option<Seq<char>>> {
    match ntlm_payload(header) {
        None => Err(None),
        Some(p) => match crypto::base64_standard_decode(encode_utf8(p)) {
            Err(e) => Err(Some("decoding NTLM challenge: "@ + e)),
            Ok(bytes) => Ok(bytes),
        },
    }
}

/// The challenge a parse result gives: the server challenge and target
/// information, or the NTLM error message.
pub open spec fn challenge_result(info: ChallengeInfoView) -> Result<(Seq<u8>, Seq<u8>), Seq<char>> {
    match info {
        ChallengeInfoView::Challenge { server_challenge, target_info } => Ok((server_challenge, target_info)),
        ChallengeInfoView::Other(n) => Err("expected challenge message, got "@ + decimal(n as nat)),
        ChallengeInfoView::Invalid(e) => Err("parsing NTLM challenge: "@ + e),
    }
}

/// Whether `r` is the challenge `c` stands for: the same two byte strings,
/// or an NTLM error with the same message.
pub open spec fn is_challenge_result(
    r: Result<(Vec<u8>, Vec<u8>), BridgeError>,
    c: Result<(Seq<u8>, Seq<u8>), Seq<char>>,
) -> bool {
    match c {
        Ok((sc, ti)) => r matches Ok((s, t)) && s@ == sc && t@ == ti,
        Err(m) => r matches Err(BridgeError::Ntlm(e)) && e@ == m,
    }
}

/// Whether `r` is what reading the challenge out of `header` can give: the
/// missing-challenge error without an NTLM payload, the decoding error where
/// the payload is not Base64, and otherwise the challenge of some parse
/// result that the bytes can give.
pub open spec fn reads_challenge(r: Result<(Vec<u8>, Vec<u8>), BridgeError>, header: Seq<char>) -> bool {
    match challenge_payload(header) {
        Err(None) => r matches Err(BridgeError::MissingNtlmChallenge),
        Err(Some(m)) => r matches Err(BridgeError::Ntlm(e)) && e@ == m,
        Ok(bytes) => parse_can_give(bytes, r),
    }
}

/// Whether some parse result that `bytes` can give stands for `r`.
pub open spec fn parse_can_give(bytes: Seq<u8>, r: Result<(Vec<u8>, Vec<u8>), BridgeError>) -> bool {
    exists|info: ChallengeInfoView|
        #![trigger possible_challenge_parse(bytes, info)]
        possible_challenge_parse(bytes, info) && is_challenge_result(r, challenge_result(info))
}

/// The challenge a parse result gives.
pub fn challenge_from_info(info: ChallengeInfo) -> (r: Result<(Vec<u8>, Vec<u8>), BridgeError>)
    ensures
        is_challenge_result(r, challenge_result(info@)),
{
    match info {
        ChallengeInfo::Challenge { server_challenge, target_info } => Ok((server_challenge, target_info)),
        ChallengeInfo::Other(n) => {
            let mut msg: Vec<char> = Vec::new();
            text::push_str(&mut msg, "expected challenge message, got ");
            push_decimal(&mut msg, n as u64);
            Err(BridgeError::Ntlm(text::string_from_chars(msg.as_slice())))
        },
        ChallengeInfo::Invalid(e) => {
            let mut msg = String::from_str("parsing NTLM challenge: ");
            msg.append(e.as_str());
            Err(BridgeError::Ntlm(msg))
        },
    }
}

/// Reads the upstream's challenge out of a `WWW-Authenticate` value.
pub fn read_challenge(challenge_header: &str) -> (r: Result<(Vec<u8>, Vec<u8>), BridgeError>)
    ensures
        reads_challenge(r, challenge_header@),
        r matches Ok((c, t)) ==> c@.len() == 8,
{
    let payload = match extract_ntlm_payload(challenge_header) {
        Some(p) => p,
        None => return Err(BridgeError::MissingNtlmChallenge),
    };
    let bytes = match crypto::standard_decode(payload.as_bytes()) {
        Ok(b) => b,
        Err(e) => {
            let mut msg = String::from_str("decoding NTLM challenge: ");
            msg.append(e.as_str());
            return Err(BridgeError::Ntlm(msg));
        },
    };
    let info = parse_challenge(bytes.as_slice());
    let ghost v = info@;
    let r = challenge_from_info(info);
    assert(challenge_payload(challenge_header@) == Ok::<Seq<u8>, Option<Seq<char>>>(bytes@));
    assert(possible_challenge_parse(bytes@, v) && is_challenge_result(r, challenge_result(v)));
    assert(parse_can_give(bytes@, r));
    r
}

/// The three parts of an NTLMv2 challenge response.
pub struct NtlmV2Response {
    pub lm_response: Vec<u8>,
    pub ntlm_response: Vec<u8>,
    pub session_key: Vec<u8>,
}

/// The current time in NTLM's units.
///
/// Trusted: calls `ntlmclient::get_ntlm_time`. Nothing is claimed of the
/// result, which depends on the clock.
#[verifier::external_body]
fn ntlm_time() -> (t: i64) {
    ntlmclient::get_ntlm_time()
}

/// `t` as eight little-endian bytes, as `i64::to_le_bytes` gives them.
pub open spec fn le_bytes_i64(t: i64) -> Seq<u8> {
    let u = t as u64;
    seq![
        u as u8,
        (u >> 8u64) as u8,
        (u >> 16u64) as u8,
        (u >> 24u64) as u8,
        (u >> 32u64) as u8,
        (u >> 40u64) as u8,
        (u >> 48u64) as u8,
        (u >> 56u64) as u8,
    ]
}

/// The blob an NTLMv2 response carries after its 16-byte proof: the two
/// version bytes and six zeros, the time, the client challenge, four zeros,
/// the target information and four zeros.
pub open spec fn ntlm_v2_blob(time: i64, client_challenge: Seq<u8>, target_info: Seq<u8>) -> Seq<u8> {
    seq![1u8, 1u8, 0u8, 0u8, 0u8, 0u8, 0u8, 0u8] + le_bytes_i64(time) + client_challenge + seq![0u8, 0u8, 0u8, 0u8]
        + target_info + seq![0u8, 0u8, 0u8, 0u8]
}

/// The NTLMv2 key of a user, `NTOWFv2`, as `ntlmclient::ntlm_v2_password_func`
/// computes it from the password, the upper-cased user name and the domain.
pub uninterp spec fn ntlmv2_key(creds: CredentialsView) -> Seq<u8>;

/// HMAC-MD5 of `data` under `key`, as the `hmac` crate computes it with MD5.
pub uninterp spec fn hmac_md5(key: Seq<u8>, data: Seq<u8>) -> Seq<u8>;

/// The LM part of an NTLMv2 response: the HMAC of the server and client
/// challenges under the user's key, then the client challenge.
pub open spec fn ntlmv2_lm_part(creds: CredentialsView, server_challenge: Seq<u8>, client_challenge: Seq<u8>) -> Seq<u8> {
    hmac_md5(ntlmv2_key(creds), server_challenge + client_challenge) + client_challenge
}

/// The proof of an NTLMv2 response: the HMAC of the server challenge and
/// the blob under the user's key.
pub open spec fn ntlmv2_proof(creds: CredentialsView, server_challenge: Seq<u8>, blob: Seq<u8>) -> Seq<u8> {
    hmac_md5(ntlmv2_key(creds), server_challenge + blob)
}

/// The NTLM part of an NTLMv2 response: the proof, then the blob.
pub open spec fn ntlmv2_nt_part(creds: CredentialsView, server_challenge: Seq<u8>, blob: Seq<u8>) -> Seq<u8> {
    ntlmv2_proof(creds, server_challenge, blob) + blob
}

/// The session key of an NTLMv2 response: the HMAC of the proof under the
/// user's key.
pub open spec fn ntlmv2_session_key(creds: CredentialsView, server_challenge: Seq<u8>, blob: Seq<u8>) -> Seq<u8> {
    hmac_md5(ntlmv2_key(creds), ntlmv2_proof(creds, server_challenge, blob))
}

/// The LM and NTLM responses carry one 8-byte client challenge: the LM
/// response after its 16-byte HMAC, and the NTLM response in the blob of
/// `time`, that challenge and `target_info` after its 16-byte proof.
pub open spec fn carries_client_challenge(lm: Seq<u8>, nt: Seq<u8>, time: i64, target_info: Seq<u8>) -> bool {
    exists|cc: Seq<u8>|
        #![trigger ntlm_v2_blob(time, cc, target_info)]
        cc.len() == 8 && lm.subrange(16, 24) == cc && nt.subrange(16, nt.len() as int) == ntlm_v2_blob(
            time,
            cc,
            target_info,
        )
}

/// Computes the NTLMv2 response to a server challenge.
///
/// Trusted: calls `ntlmclient::respond_challenge_ntlm_v2`, which draws a
/// random 8-byte client challenge, so nothing names its result. The
/// contract claims what its source shows of every outcome: the LM response
/// is the HMAC-MD5, under the user's NTLMv2 key, of the server challenge
/// and the 8-byte client challenge that follows it; the NTLM response is the
/// HMAC-MD5 of the server challenge and the blob that follows it, the blob
/// holding `time`, that same client challenge and `target_info`; the
/// session key is the HMAC-MD5 of that 16-byte proof.
#[verifier::external_body]
fn respond_ntlm_v2(server_challenge: &[u8], target_info: &[u8], time: i64, creds: &NtlmCredentials) -> (r: NtlmV2Response)
    requires
        server_challenge@.len() == 8,
    ensures
        r.lm_response@.len() == 24,
        r.ntlm_response@.len() == target_info@.len() + 48,
        r.session_key@.len() == 16,
        r.lm_response@.subrange(0, 16) == hmac_md5(
            ntlmv2_key(creds@),
            server_challenge@ + r.lm_response@.subrange(16, 24),
        ),
        r.ntlm_response@.subrange(0, 16) == hmac_md5(
            ntlmv2_key(creds@),
            server_challenge@ + r.ntlm_response@.subrange(16, r.ntlm_response@.len() as int),
        ),
        r.session_key@ == hmac_md5(ntlmv2_key(creds@), r.ntlm_response@.subrange(0, 16)),
        carries_client_challenge(r.lm_response@, r.ntlm_response@, time, target_info@),
{
    let mut challenge = [0u8; 8];
    challenge.copy_from_slice(server_challenge);
    let creds = ntlmclient::Credentials {
        username: creds.username.clone(),
        password: creds.password.clone(),
        domain: creds.domain.clone(),
    };
    let resp = ntlmclient::respond_challenge_ntlm_v2(challenge, target_info, time, &creds);
    NtlmV2Response { lm_response: resp.lm_response, ntlm_response: resp.ntlm_response, session_key: resp.session_key }
}

/// The Authenticate message with these response parts, credentials,
/// workstation and flags, as `ntlmclient` encodes it with the Unicode flag:
/// the signature, type 3, the field headers of the LM response, the NTLM
/// response, the domain, the user name, the workstation and the session key
/// (data starting at byte 72, in that order), the flags, an all-zero OS
/// version, then the fields' data, strings in UTF-16LE.
pub open spec fn ntlm_authenticate_bytes(
    lm_response: Seq<u8>,
    ntlm_response: Seq<u8>,
    session_key: Seq<u8>,
    creds: CredentialsView,
    workstation: Seq<char>,
    flags: u32,
) -> Seq<u8> {
    let d = utf16le(creds.domain);
    let u = utf16le(creds.username);
    let w = utf16le(workstation);
    let o_nt = 72 + lm_response.len();
    let o_d = o_nt + ntlm_response.len();
    let o_u = o_d + d.len();
    let o_w = o_u + u.len();
    let o_sk = o_w + w.len();
    ntlm_signature() + le32_bytes(3) + field_header(lm_response.len() as int, 72) + field_header(
        ntlm_response.len() as int,
        o_nt as int,
    ) + field_header(d.len() as int, o_d as int) + field_header(u.len() as int, o_u as int) + field_header(
        w.len() as int,
        o_w as int,
    ) + field_header(session_key.len() as int, o_sk as int) + le32_bytes(flags as int) + seq![
        0u8,
        0u8,
        0u8,
        0u8,
        0u8,
        0u8,
        0u8,
        0u8,
    ] + lm_response + ntlm_response + d + u + w + session_key
}

/// Encodes the Authenticate message for a response.
///
/// Trusted: calls `ChallengeResponse::to_message` (which only assembles the
/// message with the credentials' domain and user name and a default OS
/// version) and `Message::to_bytes` (`AuthenticateMessage::to_bytes`). The
/// contract claims the result is the layout `ntlm_authenticate_bytes` gives
/// and that encoding succeeds: with the Unicode flag set `to_bytes` fails
/// nowhere.
/// `requires` leaves out parts whose encoding exceeds the 16-bit length,
/// where `to_bytes` panics.
#[verifier::external_body]
fn authenticate_message_bytes(resp: &NtlmV2Response, creds: &NtlmCredentials, workstation: &str, flags: u32) -> (bytes: Result<Vec<u8>, String>)
    requires
        flags % 2 == 1,
        resp.lm_response@.len() <= 65535,
        resp.ntlm_response@.len() <= 65535,
        resp.session_key@.len() <= 65535,
        fits_ntlm_field(creds.username@),
        fits_ntlm_field(creds.domain@),
        fits_ntlm_field(workstation@),
    ensures
        bytes is Ok,
        bytes matches Ok(b) ==> b@ == ntlm_authenticate_bytes(
            resp.lm_response@,
            resp.ntlm_response@,
            resp.session_key@,
            creds@,
            workstation@,
            flags,
        ),
{
    let response = ntlmclient::ChallengeResponse {
        lm_response: resp.lm_response.clone(),
        ntlm_response: resp.ntlm_response.clone(),
        session_key: resp.session_key.clone(),
    };
    let ntlm_creds = ntlmclient::Credentials {
        username: creds.username.clone(),
        password: creds.password.clone(),
        domain: creds.domain.clone(),
    };
    response.to_message(&ntlm_creds, workstation, ntlmclient::Flags::from_bits_retain(flags)).to_bytes().map_err(|e| e.to_string())
}

/// Whether `v` is an `Authorization: NTLM ...` value answering the server
/// challenge `server_challenge` with this target information: the
/// Authenticate message, for these credentials and workstation, of their
/// NTLMv2 response at some time with some 8-byte client challenge.
pub open spec fn is_authenticate_value(
    v: Seq<char>,
    server_challenge: Seq<u8>,
    target_info: Seq<u8>,
    creds: CredentialsView,
    workstation: Seq<char>,
) -> bool {
    exists|cc: Seq<u8>, time: i64|
        #![trigger ntlm_v2_blob(time, cc, target_info)]
        {
            &&& cc.len() == 8
            &&& v == "NTLM "@ + crypto::base64_standard_encode(
                ntlm_authenticate_bytes(
                    ntlmv2_lm_part(creds, server_challenge, cc),
                    ntlmv2_nt_part(creds, server_challenge, ntlm_v2_blob(time, cc, target_info)),
                    ntlmv2_session_key(creds, server_challenge, ntlm_v2_blob(time, cc, target_info)),
                    creds,
                    workstation,
                    authenticate_flags(),
                ),
            )
        }
}

/// What `authenticate_header` may answer: the missing-challenge error
/// without an NTLM payload, the decoding error where it is not Base64, and
/// otherwise, for some parse result the bytes can give, its NTLM error or
/// the Authenticate value answering its challenge.
pub open spec fn answers_challenge(
    r: Result<String, BridgeError>,
    header: Seq<char>,
    creds: CredentialsView,
    workstation: Seq<char>,
) -> bool {
    match challenge_payload(header) {
        Err(None) => r matches Err(BridgeError::MissingNtlmChallenge),
        Err(Some(m)) => r matches Err(BridgeError::Ntlm(e)) && e@ == m,
        Ok(bytes) => exists|info: ChallengeInfoView|
            #![trigger possible_challenge_parse(bytes, info)]
            possible_challenge_parse(bytes, info) && match challenge_result(info) {
                Ok((sc, ti)) => r matches Ok(v) && is_authenticate_value(v@, sc, ti, creds, workstation),
                Err(m) => r matches Err(BridgeError::Ntlm(e)) && e@ == m,
            },
    }
}

/// Whether the Authenticate message can be built wherever the upstream's
/// message opens as a Challenge: the user name, domain and workstation fit
/// an NTLM field, and the target information leaves room for the NTLMv2
/// response (48 bytes more) in a 16-bit length.
pub open spec fn handshake_fits(header: Seq<char>, creds: CredentialsView, workstation: Seq<char>) -> bool {
    match challenge_payload(header) {
        Ok(bytes) => is_challenge_message(bytes) ==> {
            &&& fits_ntlm_field(creds.username)
            &&& fits_ntlm_field(creds.domain)
            &&& fits_ntlm_field(workstation)
            &&& target_info_len(bytes) + 48 <= 65535
        },
        Err(_) => true,
    }
}

/// The `Authorization: NTLM ...` value answering a server challenge with
/// this target information.
pub fn answer_challenge(server_challenge: &[u8], target_info: &[u8], creds: &NtlmCredentials, workstation: &str) -> (v: String)
    requires
        server_challenge@.len() == 8,
        target_info@.len() + 48 <= 65535,
        fits_ntlm_field(creds.username@),
        fits_ntlm_field(creds.domain@),
        fits_ntlm_field(workstation@),
    ensures
        is_authenticate_value(v@, server_challenge@, target_info@, creds@, workstation@),
{
    let time = ntlm_time();
    let response = respond_ntlm_v2(server_challenge, target_info, time, creds);
    let ghost cc = choose|cc: Seq<u8>|
        #![trigger ntlm_v2_blob(time, cc, target_info@)]
        cc.len() == 8 && response.lm_response@.subrange(16, 24) == cc && response.ntlm_response@.subrange(
            16,
            response.ntlm_response@.len() as int,
        ) == ntlm_v2_blob(time, cc, target_info@);
    proof {
        let blob = ntlm_v2_blob(time, cc, target_info@);
        let lm = response.lm_response@;
        let nt = response.ntlm_response@;
        assert(lm =~= lm.subrange(0, 16) + lm.subrange(16, 24));
        assert(nt =~= nt.subrange(0, 16) + nt.subrange(16, nt.len() as int));
        assert(lm == ntlmv2_lm_part(creds@, server_challenge@, cc));
        assert(nt.subrange(0, 16) == ntlmv2_proof(creds@, server_challenge@, blob));
        assert(nt == ntlmv2_nt_part(creds@, server_challenge@, blob));
        assert(response.session_key@ == ntlmv2_session_key(creds@, server_challenge@, blob));
    }
    let flags = NEGOTIATE_UNICODE | NEGOTIATE_NTLM | NEGOTIATE_NTLM2_KEY;
    assert(NEGOTIATE_UNICODE | NEGOTIATE_NTLM | NEGOTIATE_NTLM2_KEY == 0x0008_0201u32) by (bit_vector);
    let bytes = match authenticate_message_bytes(&response, creds, workstation, flags) {
        Ok(b) => b,
        Err(_) => {
            assert(false);
            Vec::new()
        },
    };
    let value = ntlm_value(bytes.as_slice());
    assert(is_authenticate_value(value@, server_challenge@, target_info@, creds@, workstation@));
    value
}

/// `authenticate_header` where the Authenticate message can be built;
/// `None` where the upstream's challenge was read and the credentials, the
/// workstation or the challenge's target information are too long for the
/// message.
pub fn authenticate_header_checked(challenge_header: &str, creds: &NtlmCredentials, workstation: &str) -> (r: Option<Result<String, BridgeError>>)
    ensures
        r matches Some(res) ==> answers_challenge(res, challenge_header@, creds@, workstation@),
        r is None ==> !handshake_fits(challenge_header@, creds@, workstation@),
{
    let read = read_challenge(challenge_header);
    proof {
        if let Ok(bytes) = challenge_payload(challenge_header@) {
            let info = choose|info: ChallengeInfoView|
                #![trigger possible_challenge_parse(bytes, info)]
                possible_challenge_parse(bytes, info) && is_challenge_result(read, challenge_result(info));
            assert(possible_challenge_parse(bytes, info));
        }
    }
    match read {
        Err(e) => Some(Err(e)),
        Ok((server_challenge, target_info)) => {
            if ntlm_field_fits(creds.username.as_str()) && ntlm_field_fits(creds.domain.as_str()) && ntlm_field_fits(
                workstation,
            ) && target_info.len() <= 65487 {
                let v = answer_challenge(server_challenge.as_slice(), target_info.as_slice(), creds, workstation);
                Some(Ok(v))
            } else {
                None
            }
        },
    }
}

/// The `Authorization: NTLM ...` value answering the upstream's challenge.
pub fn authenticate_header(challenge_header: &str, creds: &NtlmCredentials, workstation: &str) -> (r: Result<String, BridgeError>)
    requires
        handshake_fits(challenge_header@, creds@, workstation@),
    ensures
        answers_challenge(r, challenge_header@, creds@, workstation@),
{
    match authenticate_header_checked(challenge_header, creds, workstation) {
        Some(r) => r,
        None => {
            assert(false);
            Err(BridgeError::MissingNtlmChallenge)
        },
    }
}

/// A Unicode Challenge that `ntlmclient` reads is read: where the upstream's
/// payload is a Unicode Challenge message with its fields in range, a
/// UTF-16LE target name and well-formed target information, reading it
/// gives bytes 24 to 32 as the server challenge and the target information
/// field's bytes.
pub proof fn lemma_unicode_challenge_read(r: Result<(Vec<u8>, Vec<u8>), BridgeError>, header: Seq<char>, bytes: Seq<u8>)
    requires
        reads_challenge(r, header),
        challenge_payload(header) == Ok::<Seq<u8>, Option<Seq<char>>>(bytes),
        is_challenge_message(bytes),
        is_unicode_challenge(bytes),
        challenge_parses(bytes),
    ensures
        r matches Ok((c, t)) && c@ == bytes.subrange(24, 32) && t@ == field_data(bytes, 40),
{
    let info = choose|info: ChallengeInfoView|
        #![trigger possible_challenge_parse(bytes, info)]
        possible_challenge_parse(bytes, info) && is_challenge_result(r, challenge_result(info));
    assert(possible_challenge_parse(bytes, info));
}

/// The bridge answers the upstream's NTLM challenge: where the upstream's
/// payload is a Unicode Challenge message that `ntlmclient` reads, the
/// answer is the Authenticate value carrying the user's NTLMv2 response to
/// its server challenge (bytes 24 to 32) over its target information.
pub proof fn lemma_challenge_is_answered(
    r: Result<String, BridgeError>,
    header: Seq<char>,
    creds: CredentialsView,
    workstation: Seq<char>,
    bytes: Seq<u8>,
)
    requires
        answers_challenge(r, header, creds, workstation),
        challenge_payload(header) == Ok::<Seq<u8>, Option<Seq<char>>>(bytes),
        is_challenge_message(bytes),
        is_unicode_challenge(bytes),
        challenge_parses(bytes),
    ensures
        r matches Ok(v) && is_authenticate_value(v@, bytes.subrange(24, 32), field_data(bytes, 40), creds, workstation),
{
    let info = choose|info: ChallengeInfoView|
        #![trigger possible_challenge_parse(bytes, info)]
        possible_challenge_parse(bytes, info) && match challenge_result(info) {
            Ok((sc, ti)) => r matches Ok(v) && is_authenticate_value(v@, sc, ti, creds, workstation),
            Err(m) => r matches Err(BridgeError::Ntlm(e)) && e@ == m,
        };
    assert(possible_challenge_parse(bytes, info));
}

} // verus!
