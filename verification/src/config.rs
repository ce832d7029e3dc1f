//! Configuration: the settings the bridge runs with, their defaults, the
//! checks they must pass, command-line overrides, and the decoding of a
//! configuration file's bytes into text.
use vstd::prelude::*;
use vstd::string::*;
use vstd::utf8::*;

use crate::text;
use crate::text::{chars_of, string_from_utf16, string_from_utf8};

verus! {

broadcast use vstd::utf8::encode_utf8_decode_utf8, vstd::utf8::encode_utf8_valid_utf8;

/// Where the bridge listens and how it bounds incoming requests.
#[derive(Debug, Clone)]
pub struct ServerConfig {
    /// The listen address in `host:port` form.
    pub bind: String,
    pub request_timeout_secs: u64,
    pub max_body_bytes: usize,
}

/// The NTLM-protected service requests are forwarded to.
#[derive(Debug, Clone)]
pub struct UpstreamConfig {
    pub base_url: String,
    pub domain: String,
    pub workstation: String,
    pub connect_timeout_secs: u64,
    pub accept_invalid_certs: bool,
}

/// How incoming clients authenticate.
#[derive(Debug, Clone)]
pub struct AuthConfig {
    pub realm: String,
    pub digest_nonce_secret: String,
    pub digest_nonce_ttl_secs: u64,
    pub users: Vec<UserConfig>,
}

/// A locally configured Digest user and the NTLM identity it maps to.
#[derive(Debug, Clone)]
pub struct UserConfig {
    pub username: String,
    pub password: String,
    pub domain: Option<String>,
    pub ntlm_username: Option<String>,
}

/// Logging settings.
#[derive(Debug, Clone)]
pub struct LogConfig {
    pub level: String,
    pub log_requests: bool,
}

/// The whole configuration.
#[derive(Debug, Clone)]
pub struct Config {
    pub server: ServerConfig,
    pub upstream: UpstreamConfig,
    pub auth: AuthConfig,
    pub log: LogConfig,
}

impl Default for ServerConfig {
    fn default() -> (c: Self)
        ensures
            c.bind@ == "127.0.0.1:3002"@,
            c.request_timeout_secs == 120,
            c.max_body_bytes == 10 * 1024 * 1024,
    {
        ServerConfig {
            bind: String::from_str("127.0.0.1:3002"),
            request_timeout_secs: 120,
            max_body_bytes: 10 * 1024 * 1024,
        }
    }
}

impl Default for UpstreamConfig {
    fn default() -> (c: Self)
        ensures
            c.base_url@ == "http://localhost:8080"@,
            c.domain@ == Seq::<char>::empty(),
            c.workstation@ == "ntlm-bridge"@,
            c.connect_timeout_secs == 10,
            !c.accept_invalid_certs,
    {
        UpstreamConfig {
            base_url: String::from_str("http://localhost:8080"),
            domain: String::new(),
            workstation: String::from_str("ntlm-bridge"),
            connect_timeout_secs: 10,
            accept_invalid_certs: false,
        }
    }
}

impl Default for AuthConfig {
    fn default() -> (c: Self)
        ensures
            c.realm@ == "ntlm-bridge"@,
            c.digest_nonce_secret@ == "change-me"@,
            c.digest_nonce_ttl_secs == 300,
            c.users@.len() == 0,
    {
        AuthConfig {
            realm: String::from_str("ntlm-bridge"),
            digest_nonce_secret: String::from_str("change-me"),
            digest_nonce_ttl_secs: 300,
            users: Vec::new(),
        }
    }
}

impl Default for LogConfig {
    fn default() -> (c: Self)
        ensures
            c.level@ == "info"@,
            !c.log_requests,
    {
        LogConfig { level: String::from_str("info"), log_requests: false }
    }
}

impl Default for Config {
    fn default() -> (c: Self)
        ensures
            c.server.bind@ == "127.0.0.1:3002"@,
            c.server.request_timeout_secs == 120,
            c.server.max_body_bytes == 10 * 1024 * 1024,
            c.upstream.base_url@ == "http://localhost:8080"@,
            c.upstream.domain@ == Seq::<char>::empty(),
            c.upstream.workstation@ == "ntlm-bridge"@,
            c.upstream.connect_timeout_secs == 10,
            !c.upstream.accept_invalid_certs,
            c.auth.realm@ == "ntlm-bridge"@,
            c.auth.digest_nonce_secret@ == "change-me"@,
            c.auth.digest_nonce_ttl_secs == 300,
            c.auth.users@.len() == 0,
            c.log.level@ == "info"@,
            !c.log.log_requests,
    {
        Config {
            server: ServerConfig::default(),
            upstream: UpstreamConfig::default(),
            auth: AuthConfig::default(),
            log: LogConfig::default(),
        }
    }
}

/// The text of the error `reqwest::Url::parse` reports for `text`, or `None`
/// where it parses.
pub uninterp spec fn url_parse_error(text: Seq<char>) -> Option<Seq<char>>;

/// Checks that `text` parses as an absolute URL.
///
/// Trusted: calls `reqwest::Url::parse` and keeps only the display text of
/// its error. The contract claims the result is the named outcome for
/// `text`.
#[verifier::external_body]
pub(crate) fn url_parse_check(text: &str) -> (error: Option<String>)
    ensures
        match error {
            Some(e) => url_parse_error(text@) == Some(e@),
            None => url_parse_error(text@) == None::<Seq<char>>,
        },
{
    reqwest::Url::parse(text).err().map(|e| e.to_string())
}

/// What `Config::validate` reports for a configuration with this upstream
/// URL and realm.
pub open spec fn validation_error(base_url: Seq<char>, realm: Seq<char>) -> Option<Seq<char>> {
    match url_parse_error(base_url) {
        Some(e) => Some("invalid upstream.base_url: "@ + e),
        None => if realm.contains('"') {
            Some("auth.realm must not contain double quotes"@)
        } else {
            None
        },
    }
}

/// Whether `c` occurs in `s`.
pub fn contains_char(s: &str, c: char) -> (found: bool)
    ensures
        found == s@.contains(c),
{
    let v = chars_of(s);
    let mut i: usize = 0;
    while i < v.len()
        invariant
            v@ == s@,
            i <= v@.len(),
            forall|k: int| 0 <= k < i ==> v@[k] != c,
        decreases v.len() - i,
    {
        if v[i] == c {
            return true;
        }
        i = i + 1;
    }
    false
}

impl Config {
    /// Checks that the upstream URL parses and that the realm holds no double
    /// quote (it is sent inside a quoted string).
    pub fn validate(&self) -> (r: Result<(), String>)
        ensures
            match r {
                Ok(_) => validation_error(self.upstream.base_url@, self.auth.realm@) == None::<Seq<char>>,
                Err(e) => validation_error(self.upstream.base_url@, self.auth.realm@) == Some(e@),
            },
    {
        match url_parse_check(self.upstream.base_url.as_str()) {
            Some(e) => {
                let mut msg = String::from_str("invalid upstream.base_url: ");
                msg.append(e.as_str());
                return Err(msg);
            },
            None => {},
        }
        if contains_char(self.auth.realm.as_str(), '"') {
            return Err(String::from_str("auth.realm must not contain double quotes"));
        }
        Ok(())
    }
}

/// The order of the two bytes of a UTF-16 code unit.
#[derive(Debug, Clone, Copy, PartialEq, Eq)]
pub enum ByteOrder {
    LittleEndian,
    BigEndian,
}

/// The code unit made of the bytes `a` (first) and `b` (second).
pub open spec fn utf16_unit(a: u8, b: u8, order: ByteOrder) -> u16 {
    match order {
        ByteOrder::LittleEndian => (a as int + 256 * b as int) as u16,
        ByteOrder::BigEndian => (256 * a as int + b as int) as u16,
    }
}

/// The code units held, two bytes each, in `bytes`.
pub open spec fn utf16_units(bytes: Seq<u8>, order: ByteOrder) -> Seq<u16> {
    Seq::new(bytes.len() / 2, |i: int| utf16_unit(bytes[2 * i], bytes[2 * i + 1], order))
}

/// What `decode_utf16` gives for `bytes`: the text, or the error message.
pub open spec fn utf16_text(bytes: Seq<u8>, order: ByteOrder) -> Result<Seq<char>, Seq<char>> {
    if bytes.len() % 2 != 0 {
        Err("odd byte length for UTF-16"@)
    } else {
        match text::decode_utf16(utf16_units(bytes, order)) {
            Some(s) => Ok(s),
            None => Err(text::utf16_error_text(utf16_units(bytes, order))),
        }
    }
}

/// What UTF-8 decoding of `bytes` gives: the text, or the error text.
pub open spec fn utf8_text(bytes: Seq<u8>) -> Result<Seq<char>, Seq<char>> {
    if valid_utf8(bytes) {
        Ok(decode_utf8(bytes))
    } else {
        Err(text::utf8_error_text(bytes))
    }
}

/// Puts `prefix` before an error message.
pub open spec fn with_context(r: Result<Seq<char>, Seq<char>>, prefix: Seq<char>) -> Result<Seq<char>, Seq<char>> {
    match r {
        Ok(s) => Ok(s),
        Err(e) => Err(prefix + e),
    }
}

/// What `decode_text` gives for the bytes of a file: a UTF-8 byte order mark
/// is dropped and the rest decoded as UTF-8; after a UTF-16 LE or BE byte
/// order mark the rest is decoded as UTF-16 in that order; without a mark
/// the bytes are UTF-8.
pub open spec fn file_text(bytes: Seq<u8>) -> Result<Seq<char>, Seq<char>> {
    if bytes.len() >= 3 && bytes[0] == 0xEF && bytes[1] == 0xBB && bytes[2] == 0xBF {
        with_context(
            utf8_text(bytes.subrange(3, bytes.len() as int)),
            "file has UTF-8 BOM but body is not valid UTF-8: "@,
        )
    } else if bytes.len() >= 2 && bytes[0] == 0xFF && bytes[1] == 0xFE {
        with_context(
            utf16_text(bytes.subrange(2, bytes.len() as int), ByteOrder::LittleEndian),
            "file has UTF-16 LE BOM but body is invalid: "@,
        )
    } else if bytes.len() >= 2 && bytes[0] == 0xFE && bytes[1] == 0xFF {
        with_context(
            utf16_text(bytes.subrange(2, bytes.len() as int), ByteOrder::BigEndian),
            "file has UTF-16 BE BOM but body is invalid: "@,
        )
    } else {
        with_context(utf8_text(bytes), "file is not valid UTF-8: "@)
    }
}

/// The spec view of a string result.
pub open spec fn result_view(r: Result<String, String>) -> Result<Seq<char>, Seq<char>> {
    match r {
        Ok(s) => Ok(s@),
        Err(e) => Err(e@),
    }
}

fn prefix_error(r: Result<String, String>, prefix: &str) -> (out: Result<String, String>)
    ensures
        result_view(out) == with_context(result_view(r), prefix@),
{
    match r {
        Ok(s) => Ok(s),
        Err(e) => {
            let mut msg = String::from_str(prefix);
            msg.append(e.as_str());
            Err(msg)
        },
    }
}

fn utf8_string(bytes: Vec<u8>) -> (r: Result<String, String>)
    ensures
        result_view(r) == utf8_text(bytes@),
{
    string_from_utf8(bytes)
}

/// Copies `bytes[lo..]` into a new vector.
fn copy_tail(bytes: &[u8], lo: usize) -> (v: Vec<u8>)
    requires
        lo <= bytes@.len(),
    ensures
        v@ == bytes@.subrange(lo as int, bytes@.len() as int),
{
    let mut v: Vec<u8> = Vec::new();
    let mut i = lo;
    while i < bytes.len()
        invariant
            lo <= i <= bytes@.len(),
            v@ == bytes@.subrange(lo as int, i as int),
        decreases bytes.len() - i,
    {
        v.push(bytes[i]);
        i = i + 1;
        assert(bytes@.subrange(lo as int, i as int) =~= bytes@.subrange(lo as int, (i - 1) as int).push(bytes@[i - 1]));
    }
    v
}

/// Decodes `bytes` as UTF-16 code units in the given byte order.
pub fn decode_utf16(bytes: &[u8], order: ByteOrder) -> (r: Result<String, String>)
    ensures
        result_view(r) == utf16_text(bytes@, order),
{
    if bytes.len() % 2 != 0 {
        return Err(String::from_str("odd byte length for UTF-16"));
    }
    let mut units: Vec<u16> = Vec::new();
    let mut i: usize = 0;
    while i < bytes.len() / 2
        invariant
            bytes@.len() % 2 == 0,
            i <= bytes@.len() / 2,
            units@ =~= utf16_units(bytes@, order).subrange(0, i as int),
        decreases bytes.len() / 2 - i,
    {
        let a = bytes[2 * i];
        let b = bytes[2 * i + 1];
        let unit: u16 = match order {
            ByteOrder::LittleEndian => (a as u16) + (b as u16) * 256,
            ByteOrder::BigEndian => (a as u16) * 256 + (b as u16),
        };
        units.push(unit);
        i = i + 1;
    }
    assert(units@ =~= utf16_units(bytes@, order));
    string_from_utf16(units.as_slice())
}

/// Decodes the bytes of a configuration file as text, tolerating the byte
/// order marks Windows tools tend to write: UTF-8 with BOM, and UTF-16 LE/BE
/// with BOM. Without a BOM, bytes are UTF-8.
pub fn decode_text(bytes: &[u8]) -> (r: Result<String, String>)
    ensures
        result_view(r) == file_text(bytes@),
{
    let n = bytes.len();
    if n >= 3 && bytes[0] == 0xEF && bytes[1] == 0xBB && bytes[2] == 0xBF {
        return prefix_error(
            utf8_string(copy_tail(bytes, 3)),
            "file has UTF-8 BOM but body is not valid UTF-8: ",
        );
    }
    if n >= 2 && bytes[0] == 0xFF && bytes[1] == 0xFE {
        let body = copy_tail(bytes, 2);
        return prefix_error(
            decode_utf16(body.as_slice(), ByteOrder::LittleEndian),
            "file has UTF-16 LE BOM but body is invalid: ",
        );
    }
    if n >= 2 && bytes[0] == 0xFE && bytes[1] == 0xFF {
        let body = copy_tail(bytes, 2);
        return prefix_error(
            decode_utf16(body.as_slice(), ByteOrder::BigEndian),
            "file has UTF-16 BE BOM but body is invalid: ",
        );
    }
    assert(bytes@.subrange(0, bytes@.len() as int) =~= bytes@);
    prefix_error(utf8_string(copy_tail(bytes, 0)), "file is not valid UTF-8: ")
}


impl UpstreamConfig {
    /// A copy of these settings.
    pub fn duplicate(&self) -> (c: UpstreamConfig)
        ensures
            c.base_url@ == self.base_url@,
            c.domain@ == self.domain@,
            c.workstation@ == self.workstation@,
            c.connect_timeout_secs == self.connect_timeout_secs,
            c.accept_invalid_certs == self.accept_invalid_certs,
    {
        UpstreamConfig {
            base_url: self.base_url.clone(),
            domain: self.domain.clone(),
            workstation: self.workstation.clone(),
            connect_timeout_secs: self.connect_timeout_secs,
            accept_invalid_certs: self.accept_invalid_certs,
        }
    }
}

/// Settings given on the command line; each one present replaces the
/// configured value, and the two flags can only switch their setting on.
pub struct Overrides {
    pub bind: Option<String>,
    pub request_timeout: Option<u64>,
    pub max_body_bytes: Option<usize>,
    pub upstream_url: Option<String>,
    pub domain: Option<String>,
    pub workstation: Option<String>,
    pub connect_timeout: Option<u64>,
    pub accept_invalid_certs: bool,
    pub auth_realm: Option<String>,
    pub log_level: Option<String>,
    pub log_requests: bool,
}

/// The view of an override of a string setting.
pub open spec fn string_or(o: Option<String>, current: Seq<char>) -> Seq<char> {
    match o {
        Some(v) => v@,
        None => current,
    }
}

/// The value of an override of a number setting.
pub open spec fn u64_or(o: Option<u64>, current: u64) -> u64 {
    match o {
        Some(v) => v,
        None => current,
    }
}

/// Whether `r` is `cfg` with `o` applied: every override present replaces
/// its setting, the flags switch theirs on, and all else is kept.
pub open spec fn overrides_applied(r: Config, cfg: Config, o: Overrides) -> bool {
    &&& r.server.bind@ == string_or(o.bind, cfg.server.bind@)
    &&& r.server.request_timeout_secs == u64_or(o.request_timeout, cfg.server.request_timeout_secs)
    &&& r.server.max_body_bytes == (match o.max_body_bytes {
        Some(v) => v,
        None => cfg.server.max_body_bytes,
    })
    &&& r.upstream.base_url@ == string_or(o.upstream_url, cfg.upstream.base_url@)
    &&& r.upstream.domain@ == string_or(o.domain, cfg.upstream.domain@)
    &&& r.upstream.workstation@ == string_or(o.workstation, cfg.upstream.workstation@)
    &&& r.upstream.connect_timeout_secs == u64_or(o.connect_timeout, cfg.upstream.connect_timeout_secs)
    &&& r.upstream.accept_invalid_certs == (cfg.upstream.accept_invalid_certs || o.accept_invalid_certs)
    &&& r.auth.realm@ == string_or(o.auth_realm, cfg.auth.realm@)
    &&& r.auth.digest_nonce_secret == cfg.auth.digest_nonce_secret
    &&& r.auth.digest_nonce_ttl_secs == cfg.auth.digest_nonce_ttl_secs
    &&& r.auth.users == cfg.auth.users
    &&& r.log.level@ == string_or(o.log_level, cfg.log.level@)
    &&& r.log.log_requests == (cfg.log.log_requests || o.log_requests)
}

fn override_string(current: String, o: &Option<String>) -> (r: String)
    ensures
        r@ == string_or(*o, current@),
{
    match o {
        Some(v) => v.clone(),
        None => current,
    }
}

/// `cfg` with the command-line overrides applied.
pub fn apply_overrides(cfg: Config, overrides: &Overrides) -> (r: Config)
    ensures
        overrides_applied(r, cfg, *overrides),
{
    let mut cfg = cfg;
    let ghost orig = cfg;
    cfg.server.bind = override_string(cfg.server.bind, &overrides.bind);
    if let Some(v) = overrides.request_timeout {
        cfg.server.request_timeout_secs = v;
    }
    if let Some(v) = overrides.max_body_bytes {
        cfg.server.max_body_bytes = v;
    }
    cfg.upstream.base_url = override_string(cfg.upstream.base_url, &overrides.upstream_url);
    cfg.upstream.domain = override_string(cfg.upstream.domain, &overrides.domain);
    cfg.upstream.workstation = override_string(cfg.upstream.workstation, &overrides.workstation);
    if let Some(v) = overrides.connect_timeout {
        cfg.upstream.connect_timeout_secs = v;
    }
    if overrides.accept_invalid_certs {
        cfg.upstream.accept_invalid_certs = true;
    }
    cfg.auth.realm = override_string(cfg.auth.realm, &overrides.auth_realm);
    cfg.log.level = override_string(cfg.log.level, &overrides.log_level);
    if overrides.log_requests {
        cfg.log.log_requests = true;
    }
    cfg
}

/// The configuration to run with: `cfg` (as loaded) with the command-line
/// overrides applied, where it passes `Config::validate`.
pub fn build_config(cfg: Config, overrides: &Overrides) -> (r: Result<Config, String>)
    ensures
        match r {
            Ok(c) => overrides_applied(c, cfg, *overrides) && validation_error(c.upstream.base_url@, c.auth.realm@) == None::<Seq<char>>,
            Err(e) => validation_error(
                string_or(overrides.upstream_url, cfg.upstream.base_url@),
                string_or(overrides.auth_realm, cfg.auth.realm@),
            ) == Some(e@),
        },
{
    let c = apply_overrides(cfg, overrides);
    match c.validate() {
        Ok(()) => Ok(c),
        Err(e) => Err(e),
    }
}


/// Text written as UTF-8 behind a UTF-8 byte order mark reads back as the
/// text.
pub proof fn lemma_text_after_utf8_bom(s: Seq<char>)
    ensures
        file_text(seq![0xEFu8, 0xBBu8, 0xBFu8] + encode_utf8(s)) == Ok::<Seq<char>, Seq<char>>(s),
{
    let b = seq![0xEFu8, 0xBBu8, 0xBFu8] + encode_utf8(s);
    assert(b.subrange(3, b.len() as int) =~= encode_utf8(s));
}

/// Text written as UTF-8 without a byte order mark reads back as the text,
/// unless it starts with U+FEFF, whose UTF-8 form is the mark itself.
pub proof fn lemma_plain_utf8_text(s: Seq<char>)
    requires
        !(s.len() > 0 && s[0] == '\u{feff}'),
    ensures
        file_text(encode_utf8(s)) == Ok::<Seq<char>, Seq<char>>(s),
{
    let b = encode_utf8(s);
    if b.len() >= 3 && b[0] == 0xEF && b[1] == 0xBB && b[2] == 0xBF {
        assert(valid_first_scalar(b));
        assert(codepoint_width_3(0xEFu8, 0xBBu8, 0xBFu8) == 0xFEFFu32) by (bit_vector);
        assert(decode_utf8(b) == s);
        assert(decode_utf8(b)[0] == (0xFEFFu32 as char));
        assert(false);
    }
    if b.len() >= 2 {
        assert(valid_first_scalar(b));
    }
}

/// The two bytes of the code unit `x` in byte order `order`.
pub open spec fn unit_bytes(x: u16, order: ByteOrder) -> Seq<u8> {
    match order {
        ByteOrder::LittleEndian => seq![(x % 256) as u8, (x / 256) as u8],
        ByteOrder::BigEndian => seq![(x / 256) as u8, (x % 256) as u8],
    }
}

/// The code units `u` written two bytes each in byte order `order`.
pub open spec fn utf16_bytes(u: Seq<u16>, order: ByteOrder) -> Seq<u8>
    decreases u.len(),
{
    if u.len() == 0 {
        Seq::empty()
    } else {
        unit_bytes(u[0], order) + utf16_bytes(u.drop_first(), order)
    }
}

/// The UTF-16 byte order mark in byte order `order`.
pub open spec fn utf16_bom(order: ByteOrder) -> Seq<u8> {
    match order {
        ByteOrder::LittleEndian => seq![0xFFu8, 0xFEu8],
        ByteOrder::BigEndian => seq![0xFEu8, 0xFFu8],
    }
}

proof fn lemma_utf16_bytes_at(u: Seq<u16>, order: ByteOrder)
    ensures
        utf16_bytes(u, order).len() == 2 * u.len(),
        forall|i: int|
            0 <= i < u.len() ==> utf16_bytes(u, order)[2 * i] == unit_bytes(#[trigger] u[i], order)[0]
                && utf16_bytes(u, order)[2 * i + 1] == unit_bytes(u[i], order)[1],
    decreases u.len(),
{
    if u.len() > 0 {
        let t = u.drop_first();
        lemma_utf16_bytes_at(t, order);
        let b = utf16_bytes(u, order);
        let h = unit_bytes(u[0], order);
        assert(b == h + utf16_bytes(t, order));
        assert forall|i: int| 0 <= i < u.len() implies b[2 * i] == unit_bytes(#[trigger] u[i], order)[0] && b[2 * i + 1]
            == unit_bytes(u[i], order)[1] by {
            if i > 0 {
                assert(u[i] == t[i - 1]);
                assert(b[2 * i] == utf16_bytes(t, order)[2 * (i - 1)]);
                assert(b[2 * i + 1] == utf16_bytes(t, order)[2 * (i - 1) + 1]);
            }
        }
    }
}

/// Code units written in either byte order read back as the same units.
proof fn lemma_units_read_back(u: Seq<u16>, order: ByteOrder)
    ensures
        utf16_bytes(u, order).len() % 2 == 0,
        utf16_units(utf16_bytes(u, order), order) == u,
{
    lemma_utf16_bytes_at(u, order);
    let b = utf16_bytes(u, order);
    assert(b.len() / 2 == u.len());
    assert forall|i: int| 0 <= i < u.len() implies #[trigger] utf16_units(b, order)[i] == u[i] by {
        let x = u[i];
        assert(b[2 * i] == unit_bytes(x, order)[0]);
        assert(b[2 * i + 1] == unit_bytes(x, order)[1]);
        assert(x as int == (x % 256) as int + 256 * (x / 256) as int) by (nonlinear_arith);
        assert(x / 256 < 256) by (nonlinear_arith);
    }
    assert(utf16_units(b, order) =~= u);
}

/// Text written as UTF-16 in either byte order, behind that order's byte
/// order mark, reads back as the text.
pub proof fn lemma_text_after_utf16_bom(s: Seq<char>, order: ByteOrder)
    ensures
        file_text(utf16_bom(order) + utf16_bytes(text::encode_utf16(s), order)) == Ok::<Seq<char>, Seq<char>>(s),
{
    let body = utf16_bytes(text::encode_utf16(s), order);
    let b = utf16_bom(order) + body;
    assert(b.subrange(2, b.len() as int) =~= body);
    lemma_units_read_back(text::encode_utf16(s), order);
    text::lemma_utf16_round_trip(s);
}

/// Every command-line override that is given replaces its setting, every
/// one left out keeps it, the two flags can only switch their setting on,
/// and the settings without an override are kept.
pub proof fn lemma_overrides_replace(r: Config, cfg: Config, o: Overrides)
    requires
        overrides_applied(r, cfg, o),
    ensures
        o.bind matches Some(v) ==> r.server.bind@ == v@,
        o.bind is None ==> r.server.bind@ == cfg.server.bind@,
        o.request_timeout matches Some(v) ==> r.server.request_timeout_secs == v,
        o.request_timeout is None ==> r.server.request_timeout_secs == cfg.server.request_timeout_secs,
        o.max_body_bytes matches Some(v) ==> r.server.max_body_bytes == v,
        o.max_body_bytes is None ==> r.server.max_body_bytes == cfg.server.max_body_bytes,
        o.upstream_url matches Some(v) ==> r.upstream.base_url@ == v@,
        o.upstream_url is None ==> r.upstream.base_url@ == cfg.upstream.base_url@,
        o.domain matches Some(v) ==> r.upstream.domain@ == v@,
        o.domain is None ==> r.upstream.domain@ == cfg.upstream.domain@,
        o.workstation matches Some(v) ==> r.upstream.workstation@ == v@,
        o.workstation is None ==> r.upstream.workstation@ == cfg.upstream.workstation@,
        o.connect_timeout matches Some(v) ==> r.upstream.connect_timeout_secs == v,
        o.connect_timeout is None ==> r.upstream.connect_timeout_secs == cfg.upstream.connect_timeout_secs,
        o.accept_invalid_certs ==> r.upstream.accept_invalid_certs,
        !o.accept_invalid_certs ==> r.upstream.accept_invalid_certs == cfg.upstream.accept_invalid_certs,
        o.auth_realm matches Some(v) ==> r.auth.realm@ == v@,
        o.auth_realm is None ==> r.auth.realm@ == cfg.auth.realm@,
        o.log_level matches Some(v) ==> r.log.level@ == v@,
        o.log_level is None ==> r.log.level@ == cfg.log.level@,
        o.log_requests ==> r.log.log_requests,
        !o.log_requests ==> r.log.log_requests == cfg.log.log_requests,
        r.auth.digest_nonce_secret == cfg.auth.digest_nonce_secret,
        r.auth.digest_nonce_ttl_secs == cfg.auth.digest_nonce_ttl_secs,
        r.auth.users == cfg.auth.users,
{
}

} // verus!
