//! Authentication of incoming clients with HTTP Basic or Digest, and the
//! challenges offered to clients that have not authenticated.
use vstd::prelude::*;
use vstd::string::*;
use vstd::utf8::*;

use crate::config::{AuthConfig, UserConfig};
use crate::error::BridgeError;
use crate::text;
use crate::crypto;
use crate::text::{chars_of, push_range, push_str, string_from_chars};

verus! {

broadcast use vstd::utf8::encode_utf8_decode_utf8, vstd::utf8::encode_utf8_valid_utf8;

/// The identity used for the upstream NTLM handshake.
#[derive(Debug, Clone, PartialEq, Eq)]
pub struct NtlmCredentials {
    pub username: String,
    pub password: String,
    pub domain: String,
}

/// The contents of `NtlmCredentials`.
pub struct CredentialsView {
    pub username: Seq<char>,
    pub password: Seq<char>,
    pub domain: Seq<char>,
}

impl View for NtlmCredentials {
    type V = CredentialsView;

    open spec fn view(&self) -> CredentialsView {
        CredentialsView { username: self.username@, password: self.password@, domain: self.domain@ }
    }
}

/// `i` is the position of the first `c` in `s`.
pub open spec fn is_first(s: Seq<char>, c: char, i: int) -> bool {
    &&& 0 <= i < s.len()
    &&& s[i] == c
    &&& forall|k: int| 0 <= k < i ==> s[k] != c
}

/// `s` split around its first `c`, as `str::split_once` splits it.
pub open spec fn split_once(s: Seq<char>, c: char) -> Option<(Seq<char>, Seq<char>)> {
    if exists|i: int| is_first(s, c, i) {
        let i = choose|i: int| is_first(s, c, i);
        Some((s.subrange(0, i), s.subrange(i + 1, s.len() as int)))
    } else {
        None
    }
}

proof fn lemma_first_unique(s: Seq<char>, c: char, i: int, j: int)
    requires
        is_first(s, c, i),
        is_first(s, c, j),
    ensures
        i == j,
{
    if i < j {
        assert(s[i] != c);
    } else if j < i {
        assert(s[j] != c);
    }
}

/// The position of the first `c` in `s`.
pub fn find_char(s: &[char], c: char) -> (r: Option<usize>)
    ensures
        match r {
            Some(i) => is_first(s@, c, i as int),
            None => forall|k: int| 0 <= k < s@.len() ==> s@[k] != c,
        },
{
    let mut i: usize = 0;
    while i < s.len()
        invariant
            i <= s@.len(),
            forall|k: int| 0 <= k < i ==> s@[k] != c,
        decreases s.len() - i,
    {
        if s[i] == c {
            return Some(i);
        }
        i = i + 1;
    }
    None
}

/// Splits `s` around its first `c`.
pub fn split_once_chars(s: &[char], c: char) -> (r: Option<(Vec<char>, Vec<char>)>)
    ensures
        match r {
            Some((a, b)) => split_once(s@, c) == Some((a@, b@)),
            None => split_once(s@, c) == None::<(Seq<char>, Seq<char>)>,
        },
{
    match find_char(s, c) {
        Some(i) => {
            let n = s.len();
            let mut a: Vec<char> = Vec::new();
            push_range(&mut a, s, 0, i);
            let mut b: Vec<char> = Vec::new();
            push_range(&mut b, s, i + 1, n);
            proof {
                let j = choose|j: int| is_first(s@, c, j);
                lemma_first_unique(s@, c, i as int, j);
            }
            Some((a, b))
        },
        None => {
            assert(!exists|i: int| is_first(s@, c, i));
            None
        },
    }
}

/// The NTLM domain and user name for `user`: a `DOMAIN\name` user is split
/// at its first backslash; any other keeps the default domain.
pub open spec fn ntlm_user_parts(user: Seq<char>, default_domain: Seq<char>) -> (Seq<char>, Seq<char>) {
    match split_once(user, '\\') {
        Some((domain, name)) => (domain, name),
        None => (default_domain, user),
    }
}

/// Splits `user` into the NTLM domain and user name.
pub fn split_ntlm_user(user: &str, default_domain: &str) -> (r: (String, String))
    ensures
        (r.0@, r.1@) == ntlm_user_parts(user@, default_domain@),
{
    let v = chars_of(user);
    match split_once_chars(v.as_slice(), '\\') {
        Some((d, u)) => (string_from_chars(d.as_slice()), string_from_chars(u.as_slice())),
        None => (String::from_str(default_domain), String::from_str(user)),
    }
}

/// The NTLM identity of a configured Digest user: its NTLM user name (or its
/// user name), its password, and its domain if one is configured, else the
/// domain split from the NTLM user name or the default domain.
pub open spec fn user_credentials(user: UserConfig, default_domain: Seq<char>) -> CredentialsView {
    let ntlm_user = match user.ntlm_username {
        Some(n) => n@,
        None => user.username@,
    };
    match user.domain {
        Some(d) => CredentialsView { username: ntlm_user, password: user.password@, domain: d@ },
        None => {
            let (d, u) = ntlm_user_parts(ntlm_user, default_domain);
            CredentialsView { username: u, password: user.password@, domain: d }
        },
    }
}

/// The NTLM identity of a configured Digest user.
pub fn credentials_from_user(user: &UserConfig, default_domain: &str) -> (c: NtlmCredentials)
    ensures
        c@ == user_credentials(*user, default_domain@),
{
    let ntlm_user: &str = match &user.ntlm_username {
        Some(n) => n.as_str(),
        None => user.username.as_str(),
    };
    match &user.domain {
        Some(domain) => NtlmCredentials {
            username: String::from_str(ntlm_user),
            password: user.password.clone(),
            domain: domain.clone(),
        },
        None => {
            let (domain, username) = split_ntlm_user(ntlm_user, default_domain);
            NtlmCredentials { username, password: user.password.clone(), domain }
        },
    }
}

/// Whether `prefix` starts `value`, ignoring ASCII case, with the rest of
/// `value` starting at a character boundary; the rest is then the bytes of
/// `value` after `prefix`.
pub open spec fn ascii_prefix_rest(value: Seq<char>, prefix: Seq<char>) -> Option<Seq<u8>> {
    let v = encode_utf8(value);
    let n = encode_utf8(prefix).len() as int;
    if is_char_boundary(v, n) && text::bytes_eq_ignore_ascii_case(v.subrange(0, n), encode_utf8(prefix)) {
        Some(v.subrange(n, v.len() as int))
    } else {
        None
    }
}

/// `value` after `prefix`, where `value` starts with `prefix` ignoring ASCII case.
pub fn strip_ascii_prefix<'a>(value: &'a str, prefix: &str) -> (r: Option<&'a str>)
    ensures
        match r {
            Some(rest) => ascii_prefix_rest(value@, prefix@) == Some(rest.spec_bytes()),
            None => ascii_prefix_rest(value@, prefix@) == None::<Seq<u8>>,
        },
{
    let pb = prefix.as_bytes();
    let n = pb.len();
    if !value.is_char_boundary(n) {
        return None;
    }
    let (head, rest) = value.split_at(n);
    let hb = head.as_bytes();
    let mut i: usize = 0;
    while i < n
        invariant
            n == pb@.len(),
            hb@ == value.spec_bytes().subrange(0, n as int),
            pb@ == prefix.spec_bytes(),
            hb@.len() == n,
            i <= n,
            forall|k: int| 0 <= k < i ==> text::ascii_lower_byte(#[trigger] hb@[k]) == text::ascii_lower_byte(pb@[k]),
        decreases n - i,
    {
        if text::ascii_lower_u8(hb[i]) != text::ascii_lower_u8(pb[i]) {
            return None;
        }
        i = i + 1;
    }
    Some(rest)
}

/// A parsed field list: each field in the order it was read. A name read
/// twice keeps its last value, as a map insert would.
pub struct DigestFields {
    pub entries: Vec<(String, String)>,
}

/// The field map of a list of (name, value) pairs: later pairs override
/// earlier ones with the same name.
pub open spec fn field_map(s: Seq<(Seq<char>, Seq<char>)>) -> Map<Seq<char>, Seq<char>>
    decreases s.len(),
{
    if s.len() == 0 {
        Map::empty()
    } else {
        field_map(s.drop_last()).insert(s.last().0, s.last().1)
    }
}

/// The (name, value) pairs of `entries`.
pub open spec fn pairs_view(entries: Seq<(String, String)>) -> Seq<(Seq<char>, Seq<char>)> {
    entries.map_values(|e: (String, String)| (e.0@, e.1@))
}

impl View for DigestFields {
    type V = Map<Seq<char>, Seq<char>>;

    open spec fn view(&self) -> Map<Seq<char>, Seq<char>> {
        field_map(pairs_view(self.entries@))
    }
}

proof fn lemma_field_map_tail(s: Seq<(Seq<char>, Seq<char>)>, j: int, key: Seq<char>)
    requires
        0 <= j <= s.len(),
        forall|k: int| j <= k < s.len() ==> (#[trigger] s[k]).0 != key,
    ensures
        field_map(s).contains_key(key) == field_map(s.subrange(0, j)).contains_key(key),
        field_map(s).contains_key(key) ==> field_map(s)[key] == field_map(s.subrange(0, j))[key],
    decreases s.len() - j,
{
    if j < s.len() {
        assert(s.drop_last() =~= s.subrange(0, s.len() - 1));
        assert(s.subrange(0, s.len() - 1).subrange(0, j) =~= s.subrange(0, j));
        lemma_field_map_tail(s.subrange(0, s.len() - 1), j, key);
    } else {
        assert(s.subrange(0, j) =~= s);
    }
}

impl DigestFields {
    /// The value of the field `name`, if present.
    pub fn get(&self, name: &str) -> (r: Option<&String>)
        ensures
            match r {
                Some(v) => self@.contains_key(name@) && self@[name@] == v@,
                None => !self@.contains_key(name@),
            },
    {
        let ghost s = pairs_view(self.entries@);
        let mut i = self.entries.len();
        while i > 0
            invariant
                i <= self.entries@.len(),
                s == pairs_view(self.entries@),
                forall|k: int| i <= k < s.len() ==> (#[trigger] s[k]).0 != name@,
            decreases i,
        {
            if text::str_eq(self.entries[i - 1].0.as_str(), name) {
                proof {
                    lemma_field_map_tail(s, i as int, name@);
                    assert(s.subrange(0, i as int).drop_last() =~= s.subrange(0, i - 1));
                }
                return Some(&self.entries[i - 1].1);
            }
            i = i - 1;
        }
        proof {
            lemma_field_map_tail(s, 0, name@);
        }
        None
    }
}

/// A byte that separates Digest fields: a comma or ASCII white space.
pub open spec fn is_field_separator(x: u8) -> bool {
    x == 44 || x == 32 || x == 9 || x == 10 || x == 12 || x == 13
}

/// The first position at or after `i` that holds no separator.
pub open spec fn skip_separators(b: Seq<u8>, i: int) -> int
    decreases b.len() - i,
{
    if 0 <= i < b.len() && is_field_separator(b[i]) {
        skip_separators(b, i + 1)
    } else {
        i
    }
}

/// The first position at or after `i` that holds `x`, or the end.
pub open spec fn find_byte(b: Seq<u8>, i: int, x: u8) -> int
    decreases b.len() - i,
{
    if 0 <= i < b.len() && b[i] != x {
        find_byte(b, i + 1, x)
    } else {
        i
    }
}

/// A quoted value read from position `i` (just after its opening quote):
/// a backslash takes the next byte as it is, a quote ends the value, and
/// every byte stands for the character with its code; also the position
/// after the value.
pub open spec fn quoted_value(b: Seq<u8>, i: int) -> (Seq<char>, int)
    decreases b.len() - i,
{
    if i < 0 || i >= b.len() {
        (Seq::<char>::empty(), i)
    } else if b[i] == 92 && i + 1 < b.len() {
        let (r, n) = quoted_value(b, i + 2);
        (seq![b[i + 1] as char] + r, n)
    } else if b[i] == 34 {
        (Seq::<char>::empty(), i + 1)
    } else {
        let (r, n) = quoted_value(b, i + 1);
        (seq![b[i] as char] + r, n)
    }
}

/// The field that starts at position `j`: its name (trimmed, ASCII
/// lower-case), its value (quoted, or trimmed up to the next comma) and the
/// position after it; `None` where no `=` follows.
pub open spec fn field_at(b: Seq<u8>, j: int) -> Option<(Seq<char>, Seq<char>, int)> {
    let e = find_byte(b, j, 61);
    if e >= b.len() {
        None
    } else {
        let key = text::ascii_lowercase(text::trim(decode_utf8(b.subrange(j, e))));
        let v = e + 1;
        if v < b.len() && b[v] == 34 {
            let (value, next) = quoted_value(b, v + 1);
            Some((key, value, next))
        } else {
            let end = find_byte(b, v, 44);
            Some((key, text::trim(decode_utf8(b.subrange(v, end))), end))
        }
    }
}

/// The fields read from position `i` on, after those in `acc`; `None` where
/// a field lacks its `=`.
pub open spec fn fields_from(b: Seq<u8>, i: int, acc: Seq<(Seq<char>, Seq<char>)>) -> Option<Seq<(Seq<char>, Seq<char>)>>
    decreases b.len() - i,
{
    let j = skip_separators(b, i);
    if j >= b.len() || j < i {
        Some(acc)
    } else {
        match field_at(b, j) {
            None => None,
            Some((k, v, next)) => if i < next <= b.len() {
                fields_from(b, next, acc.push((k, v)))
            } else {
                None
            },
        }
    }
}

/// The fields of a Digest `Authorization` value: comma-separated
/// `name=value` pairs, values plain or quoted.
pub open spec fn digest_fields(input: Seq<char>) -> Option<Seq<(Seq<char>, Seq<char>)>> {
    fields_from(encode_utf8(input), 0, Seq::empty())
}

proof fn lemma_skip_ge(b: Seq<u8>, i: int)
    ensures
        skip_separators(b, i) >= i,
    decreases b.len() - i,
{
    if 0 <= i < b.len() && is_field_separator(b[i]) {
        lemma_skip_ge(b, i + 1);
    }
}

/// Reads a trimmed, optionally lower-cased string from `b[lo..hi]`, where
/// both ends are character boundaries of the valid UTF-8 `b`.
fn trimmed_text(b: &[u8], lo: usize, hi: usize, lower: bool) -> (r: String)
    requires
        valid_utf8(b@),
        lo <= hi <= b@.len(),
        is_char_boundary(b@, lo as int),
        is_char_boundary(b@, hi as int),
    ensures
        lower ==> r@ == text::ascii_lowercase(text::trim(decode_utf8(b@.subrange(lo as int, hi as int)))),
        !lower ==> r@ == text::trim(decode_utf8(b@.subrange(lo as int, hi as int))),
{
    proof {
        text::lemma_valid_between(b@, lo as int, hi as int);
    }
    let slice = &b[lo..hi];
    match text::str_from_utf8(slice) {
        Some(s) => {
            proof {
                assert(decode_utf8(encode_utf8(s@)) == s@);
            }
            let t = text::trim_string(s);
            if lower {
                let v = chars_of(t.as_str());
                let l = text::to_ascii_lowercase(v.as_slice());
                string_from_chars(l.as_slice())
            } else {
                t
            }
        },
        None => {
            assert(false);
            String::new()
        },
    }
}

/// Parses the fields of a Digest `Authorization` value.
pub fn parse_digest_fields(input: &str) -> (r: Result<DigestFields, String>)
    ensures
        match r {
            Ok(f) => digest_fields(input@) == Some(pairs_view(f.entries@)),
            Err(e) => digest_fields(input@) == None::<Seq<(Seq<char>, Seq<char>)>> && e@ == "invalid Digest field"@,
        },
{
    let b = input.as_bytes();
    let n = b.len();
    let ghost bs = b@;
    let mut entries: Vec<(String, String)> = Vec::new();
    let mut i: usize = 0;
    assert(pairs_view(entries@) =~= Seq::<(Seq<char>, Seq<char>)>::empty());
    while i < n
        invariant
            n == b@.len(),
            bs == b@,
            bs == encode_utf8(input@),
            valid_utf8(bs),
            i <= n,
            i == 0 || i == n || bs[i - 1] < 128 || bs[i as int] == 44,
            digest_fields(input@) == fields_from(bs, i as int, pairs_view(entries@)),
        decreases n - i,
    {
        let ghost i0 = i as int;
        let mut j = i;
        while j < n && (b[j] == 44 || b[j] == 32 || b[j] == 9 || b[j] == 10 || b[j] == 12 || b[j] == 13)
            invariant
                n == b@.len(),
                bs == b@,
                i <= j <= n,
                skip_separators(bs, i as int) == skip_separators(bs, j as int),
                j == i || bs[j - 1] < 128,
            decreases n - j,
        {
            j = j + 1;
        }
        if j >= n {
            assert(fields_from(bs, i as int, pairs_view(entries@)) == Some(pairs_view(entries@)));
            return Ok(DigestFields { entries });
        }
        let mut e = j;
        while e < n && b[e] != 61
            invariant
                n == b@.len(),
                bs == b@,
                j <= e <= n,
                find_byte(bs, j as int, 61) == find_byte(bs, e as int, 61),
            decreases n - e,
        {
            e = e + 1;
        }
        if e >= n {
            return Err(String::from_str("invalid Digest field"));
        }
        proof {
            if j > 0 {
                if j == i {
                    if bs[i as int] == 44 {
                        assert(false);
                    }
                }
                text::lemma_boundary_after_ascii(bs, j as int);
            }
            text::lemma_boundary_after_ascii(bs, e + 1);
            if e > 0 {
                assert(!is_continuation_byte(bs[e as int]));
                is_char_boundary_iff_not_is_continuation_byte(bs, e as int);
            }
        }
        let key = trimmed_text(b, j, e, true);
        let v = e + 1;
        let value: String;
        let next: usize;
        if v < n && b[v] == 34 {
            let mut acc: Vec<char> = Vec::new();
            let mut q = v + 1;
            let ghost whole = quoted_value(bs, v + 1);
            loop
                invariant_except_break
                    whole.0 == acc@ + quoted_value(bs, q as int).0,
                    whole.1 == quoted_value(bs, q as int).1,
                invariant
                    n == b@.len(),
                    bs == b@,
                    v + 1 <= q <= n,
                    whole == quoted_value(bs, v + 1),
                ensures
                    whole.0 == acc@,
                    whole.1 == q,
                    q == n || bs[q - 1] == 34,
                decreases n - q,
            {
                if q >= n {
                    break;
                }
                if b[q] == 92 && q + 1 < n {
                    acc.push(b[q + 1] as char);
                    proof {
                        assert(acc@ + quoted_value(bs, q + 2).0 =~= acc@.drop_last() + quoted_value(bs, q as int).0);
                    }
                    q = q + 2;
                } else if b[q] == 34 {
                    q = q + 1;
                    break;
                } else {
                    acc.push(b[q] as char);
                    proof {
                        assert(acc@ + quoted_value(bs, q + 1).0 =~= acc@.drop_last() + quoted_value(bs, q as int).0);
                    }
                    q = q + 1;
                }
            }
            value = string_from_chars(acc.as_slice());
            next = q;
        } else {
            let mut end = v;
            while end < n && b[end] != 44
                invariant
                    n == b@.len(),
                    bs == b@,
                    v <= end <= n,
                    find_byte(bs, v as int, 44) == find_byte(bs, end as int, 44),
                decreases n - end,
            {
                end = end + 1;
            }
            proof {
                if end < n {
                    is_char_boundary_iff_not_is_continuation_byte(bs, end as int);
                } else {
                    text::lemma_boundary_after_ascii(bs, v as int);
                    vstd::utf8::is_char_boundary_start_end_of_seq(bs);
                }
            }
            value = trimmed_text(b, v, end, false);
            next = end;
        }
        proof {
            lemma_skip_ge(bs, i as int);
            assert(field_at(bs, j as int) == Some((key@, value@, next as int)));
            assert(pairs_view(entries@.push((key, value))) =~= pairs_view(entries@).push((key@, value@)));
        }
        entries.push((key, value));
        i = next;
    }
    assert(skip_separators(bs, i as int) == i);
    Ok(DigestFields { entries })
}

/// The lower-case hexadecimal digit for `n` (below 16).
pub open spec fn hex_digit(n: u8) -> char {
    if n < 10 {
        (48 + n) as u8 as char
    } else {
        (87 + n) as u8 as char
    }
}

/// `d` in lower-case hexadecimal, two digits per byte.
pub open spec fn lower_hex(d: Seq<u8>) -> Seq<char>
    decreases d.len(),
{
    if d.len() == 0 {
        Seq::empty()
    } else {
        lower_hex(d.drop_last()) + seq![hex_digit(d.last() / 16), hex_digit(d.last() % 16)]
    }
}

/// The MD5 digest of the UTF-8 bytes of `s`, in lower-case hexadecimal.
pub open spec fn md5_hex_of(s: Seq<char>) -> Seq<char> {
    lower_hex(crypto::md5_digest(encode_utf8(s)))
}

fn hex_char(n: u8) -> (c: char)
    requires
        n < 16,
    ensures
        c == hex_digit(n),
{
    if n < 10 {
        (48 + n) as char
    } else {
        (87 + n) as char
    }
}

/// The MD5 digest of `input`, in lower-case hexadecimal.
pub fn md5_hex(input: &str) -> (h: String)
    ensures
        h@ == md5_hex_of(input@),
{
    let d = crypto::md5_of(input.as_bytes());
    let mut out: Vec<char> = Vec::new();
    let mut i: usize = 0;
    while i < d.len()
        invariant
            i <= d@.len(),
            out@ == lower_hex(d@.subrange(0, i as int)),
        decreases d.len() - i,
    {
        let x = d[i];
        out.push(hex_char(x / 16));
        out.push(hex_char(x % 16));
        i = i + 1;
        assert(d@.subrange(0, i as int).drop_last() =~= d@.subrange(0, (i - 1) as int));
    }
    assert(d@.subrange(0, d@.len() as int) =~= d@);
    string_from_chars(out.as_slice())
}

/// The eight big-endian bytes of `x`.
pub open spec fn be_bytes(x: u64) -> Seq<u8> {
    seq![
        (x >> 56u64) as u8,
        (x >> 48u64) as u8,
        (x >> 40u64) as u8,
        (x >> 32u64) as u8,
        (x >> 24u64) as u8,
        (x >> 16u64) as u8,
        (x >> 8u64) as u8,
        x as u8,
    ]
}

/// The number whose big-endian bytes are `b[0..8]`.
pub open spec fn be_value(b: Seq<u8>) -> u64 {
    ((b[0] as u64) << 56u64) | ((b[1] as u64) << 48u64) | ((b[2] as u64) << 40u64) | ((b[3] as u64) << 32u64)
        | ((b[4] as u64) << 24u64) | ((b[5] as u64) << 16u64) | ((b[6] as u64) << 8u64) | (b[7] as u64)
}

proof fn lemma_be_round_trip(x: u64)
    ensures
        be_value(be_bytes(x)) == x,
{
    let b = be_bytes(x);
    assert(((((x >> 56u64) as u8) as u64) << 56u64) | ((((x >> 48u64) as u8) as u64) << 48u64)
        | ((((x >> 40u64) as u8) as u64) << 40u64) | ((((x >> 32u64) as u8) as u64) << 32u64)
        | ((((x >> 24u64) as u8) as u64) << 24u64) | ((((x >> 16u64) as u8) as u64) << 16u64)
        | ((((x >> 8u64) as u8) as u64) << 8u64) | ((x as u8) as u64) == x) by (bit_vector);
}

fn push_be_bytes(v: &mut Vec<u8>, x: u64)
    ensures
        final(v)@ == old(v)@ + be_bytes(x),
{
    v.push((x >> 56) as u8);
    v.push((x >> 48) as u8);
    v.push((x >> 40) as u8);
    v.push((x >> 32) as u8);
    v.push((x >> 24) as u8);
    v.push((x >> 16) as u8);
    v.push((x >> 8) as u8);
    v.push(x as u8);
    assert(final(v)@ =~= old(v)@ + be_bytes(x));
}

fn read_be(b: &[u8]) -> (x: u64)
    requires
        b@.len() >= 8,
    ensures
        x == be_value(b@),
{
    ((b[0] as u64) << 56) | ((b[1] as u64) << 48) | ((b[2] as u64) << 40) | ((b[3] as u64) << 32)
        | ((b[4] as u64) << 24) | ((b[5] as u64) << 16) | ((b[6] as u64) << 8) | (b[7] as u64)
}

/// The authentication tag of a nonce issued at `ts`: the first 16 bytes of
/// HMAC-SHA256 over the timestamp and the realm, keyed with the nonce secret.
pub open spec fn nonce_tag(auth: AuthConfig, ts: u64) -> Seq<u8> {
    crypto::hmac_sha256(encode_utf8(auth.digest_nonce_secret@), be_bytes(ts) + encode_utf8(auth.realm@)).subrange(0, 16)
}

/// The nonce issued at time `now`: the timestamp and its tag, in URL-safe
/// Base64 without padding.
pub open spec fn nonce_text(auth: AuthConfig, now: u64) -> Seq<char> {
    crypto::base64_url_encode(be_bytes(now) + nonce_tag(auth, now))
}

/// How a nonce fares when checked at time `now`: it must decode to 24
/// bytes, be issued no later than `now` and at most the nonce lifetime
/// before it, and carry the right tag.
pub open spec fn nonce_check(nonce: Seq<char>, auth: AuthConfig, now: u64) -> Result<(), Seq<char>> {
    match crypto::base64_url_decode(encode_utf8(nonce)) {
        Err(_) => Err("invalid Digest nonce"@),
        Ok(raw) => if raw.len() != 24 {
            Err("invalid Digest nonce"@)
        } else {
            let ts = be_value(raw);
            if ts > now || now - ts > auth.digest_nonce_ttl_secs {
                Err("stale Digest nonce"@)
            } else if nonce_tag(auth, ts) != raw.subrange(8, 24) {
                Err("invalid Digest nonce"@)
            } else {
                Ok(())
            }
        },
    }
}

fn nonce_tag_of(auth: &AuthConfig, ts: u64) -> (tag: Vec<u8>)
    ensures
        tag@ == nonce_tag(*auth, ts),
        tag@.len() == 16,
{
    let mut msg: Vec<u8> = Vec::new();
    push_be_bytes(&mut msg, ts);
    let realm = auth.realm.as_str().as_bytes();
    let mut i: usize = 0;
    while i < realm.len()
        invariant
            i <= realm@.len(),
            msg@ == be_bytes(ts) + realm@.subrange(0, i as int),
        decreases realm.len() - i,
    {
        msg.push(realm[i]);
        i = i + 1;
        assert(realm@.subrange(0, i as int) =~= realm@.subrange(0, (i - 1) as int).push(realm@[i - 1]));
    }
    assert(realm@.subrange(0, realm@.len() as int) =~= realm@);
    let mac = crypto::hmac_sha256_of(auth.digest_nonce_secret.as_str().as_bytes(), msg.as_slice());
    let mut tag: Vec<u8> = Vec::new();
    let mut k: usize = 0;
    while k < 16
        invariant
            mac@.len() == 32,
            k <= 16,
            tag@ == mac@.subrange(0, k as int),
        decreases 16 - k,
    {
        tag.push(mac[k]);
        k = k + 1;
        assert(mac@.subrange(0, k as int) =~= mac@.subrange(0, (k - 1) as int).push(mac@[k - 1]));
    }
    tag
}

/// The Digest nonce issued at time `now`. A nonce issued at `now` passes the
/// check at exactly the times from `now` to `now` plus the nonce lifetime.
pub fn nonce_at(auth: &AuthConfig, now: u64) -> (nonce: String)
    ensures
        nonce@ == nonce_text(*auth, now),
        forall|t: u64|
            (#[trigger] nonce_check(nonce@, *auth, t)) is Ok <==> (now <= t && t - now <= auth.digest_nonce_ttl_secs),
{
    let tag = nonce_tag_of(auth, now);
    let mut raw: Vec<u8> = Vec::new();
    push_be_bytes(&mut raw, now);
    let mut k: usize = 0;
    while k < 16
        invariant
            tag@.len() == 16,
            k <= 16,
            raw@ == be_bytes(now) + tag@.subrange(0, k as int),
        decreases 16 - k,
    {
        raw.push(tag[k]);
        k = k + 1;
        assert(tag@.subrange(0, k as int) =~= tag@.subrange(0, (k - 1) as int).push(tag@[k - 1]));
    }
    assert(tag@.subrange(0, 16) =~= tag@);
    let nonce = crypto::url_encode(raw.as_slice());
    proof {
        lemma_be_round_trip(now);
        assert(raw@.subrange(0, 8) =~= be_bytes(now));
        assert(be_value(raw@) == be_value(be_bytes(now)));
        assert(raw@.subrange(8, 24) =~= tag@);
    }
    nonce
}

/// The Digest nonce for the current time.
pub fn make_nonce(auth: &AuthConfig) -> (nonce: String)
    ensures
        exists|t: u64| nonce@ == nonce_text(*auth, t),
{
    nonce_at(auth, crypto::unix_time_secs())
}

/// Checks a nonce at time `now`.
pub fn verify_nonce_at(nonce: &str, auth: &AuthConfig, now: u64) -> (r: Result<(), String>)
    ensures
        match r {
            Ok(_) => nonce_check(nonce@, *auth, now) is Ok,
            Err(e) => nonce_check(nonce@, *auth, now) == Err::<(), Seq<char>>(e@),
        },
{
    let raw = match crypto::url_decode(nonce.as_bytes()) {
        Ok(raw) => raw,
        Err(_) => return Err(String::from_str("invalid Digest nonce")),
    };
    if raw.len() != 24 {
        return Err(String::from_str("invalid Digest nonce"));
    }
    let ts = read_be(raw.as_slice());
    if ts > now || now - ts > auth.digest_nonce_ttl_secs {
        return Err(String::from_str("stale Digest nonce"));
    }
    let tag = nonce_tag_of(auth, ts);
    let rest = &raw.as_slice()[8..24];
    if !crypto::constant_time_eq(tag.as_slice(), rest) {
        return Err(String::from_str("invalid Digest nonce"));
    }
    Ok(())
}

/// Checks a nonce at the current time.
pub fn verify_nonce(nonce: &str, auth: &AuthConfig) -> (r: Result<(), String>)
    ensures
        exists|t: u64|
            match r {
                Ok(_) => nonce_check(nonce@, *auth, t) is Ok,
                Err(e) => nonce_check(nonce@, *auth, t) == Err::<(), Seq<char>>(e@),
            },
{
    verify_nonce_at(nonce, auth, crypto::unix_time_secs())
}

/// The views of a list of strings.
pub open spec fn strings_view(v: Seq<String>) -> Seq<Seq<char>> {
    v.map_values(|s: String| s@)
}

/// The view of an optional string.
pub open spec fn opt_str_view(o: Option<&str>) -> Option<Seq<char>> {
    match o {
        Some(s) => Some(s@),
        None => None,
    }
}

/// The escaped form of one character.
pub open spec fn escape_char(c: char) -> Seq<char> {
    if c == '\\' || c == '"' {
        seq!['\\', c]
    } else {
        seq![c]
    }
}

/// `realm` made fit for a quoted string: each backslash and each double
/// quote gets a backslash before it.
pub open spec fn escape_quoted(s: Seq<char>) -> Seq<char>
    decreases s.len(),
{
    if s.len() == 0 {
        Seq::empty()
    } else {
        escape_quoted(s.drop_last()) + escape_char(s.last())
    }
}

/// The Basic challenge for `realm`.
pub open spec fn basic_challenge(realm: Seq<char>) -> Seq<char> {
    "Basic realm=\""@ + escape_quoted(realm) + "\""@
}

/// The Digest challenge for `realm` with the nonce `nonce`.
pub open spec fn digest_challenge(realm: Seq<char>, nonce: Seq<char>) -> Seq<char> {
    "Digest realm=\""@ + escape_quoted(realm) + "\", nonce=\""@ + nonce + "\", algorithm=MD5, qop=\"auth\""@
}

/// The challenges offered at time `now`: Basic always, and Digest (with a
/// nonce issued at `now`) where Digest users are configured.
pub open spec fn challenges_at(auth: AuthConfig, now: u64) -> Seq<Seq<char>> {
    if auth.users@.len() == 0 {
        seq![basic_challenge(auth.realm@)]
    } else {
        seq![basic_challenge(auth.realm@), digest_challenge(auth.realm@, nonce_text(auth, now))]
    }
}

/// `s` with backslashes and double quotes escaped.
pub fn escape_quoted_string(s: &str) -> (r: Vec<char>)
    ensures
        r@ == escape_quoted(s@),
{
    let v = chars_of(s);
    let mut out: Vec<char> = Vec::new();
    let mut i: usize = 0;
    while i < v.len()
        invariant
            v@ == s@,
            i <= v@.len(),
            out@ == escape_quoted(v@.subrange(0, i as int)),
        decreases v.len() - i,
    {
        let c = v[i];
        if c == '\\' || c == '"' {
            out.push('\\');
        }
        out.push(c);
        i = i + 1;
        assert(v@.subrange(0, i as int).drop_last() =~= v@.subrange(0, (i - 1) as int));
        assert(out@ =~= escape_quoted(v@.subrange(0, i as int)));
    }
    assert(v@.subrange(0, v@.len() as int) =~= v@);
    out
}

/// The challenges offered at time `now`.
pub fn challenge_headers_at(auth: &AuthConfig, now: u64) -> (v: Vec<String>)
    ensures
        strings_view(v@) == challenges_at(*auth, now),
{
    let escaped = escape_quoted_string(auth.realm.as_str());
    let mut basic: Vec<char> = Vec::new();
    push_str(&mut basic, "Basic realm=\"");
    push_range(&mut basic, escaped.as_slice(), 0, escaped.len());
    push_str(&mut basic, "\"");
    assert(escaped@.subrange(0, escaped@.len() as int) =~= escaped@);
    let mut values: Vec<String> = Vec::new();
    values.push(string_from_chars(basic.as_slice()));
    if auth.users.len() != 0 {
        let nonce = nonce_at(auth, now);
        let mut digest: Vec<char> = Vec::new();
        push_str(&mut digest, "Digest realm=\"");
        push_range(&mut digest, escaped.as_slice(), 0, escaped.len());
        push_str(&mut digest, "\", nonce=\"");
        push_str(&mut digest, nonce.as_str());
        push_str(&mut digest, "\", algorithm=MD5, qop=\"auth\"");
        values.push(string_from_chars(digest.as_slice()));
    }
    assert(strings_view(values@) =~= challenges_at(*auth, now));
    values
}

/// The challenges offered now.
pub fn challenge_headers(auth: &AuthConfig) -> (v: Vec<String>)
    ensures
        exists|t: u64| strings_view(v@) == challenges_at(*auth, t),
{
    challenge_headers_at(auth, crypto::unix_time_secs())
}

/// What `authenticate_basic` gives for the value after `Basic `: the value
/// must be the Base64 of the UTF-8 text `user:password` with a non-empty
/// `user`, which may name its domain as `DOMAIN\name`.
pub open spec fn basic_outcome(value: Seq<char>, default_domain: Seq<char>) -> Result<CredentialsView, Seq<char>> {
    match crypto::base64_standard_decode(encode_utf8(text::trim(value))) {
        Err(_) => Err("invalid Authorization header: invalid base64"@),
        Ok(raw) => if !valid_utf8(raw) {
            Err("invalid Authorization header: invalid utf-8"@)
        } else {
            match split_once(decode_utf8(raw), ':') {
                None => Err("invalid Authorization header: missing colon"@),
                Some((user, password)) => if user.len() == 0 {
                    Err("invalid Authorization header: empty user"@)
                } else {
                    let (domain, name) = ntlm_user_parts(user, default_domain);
                    Ok(CredentialsView { username: name, password, domain })
                },
            }
        },
    }
}

/// The spec view of a credentials result.
pub open spec fn creds_result_view(r: Result<NtlmCredentials, String>) -> Result<CredentialsView, Seq<char>> {
    match r {
        Ok(c) => Ok(c@),
        Err(e) => Err(e@),
    }
}

/// Reads Basic credentials from the value after `Basic `.
pub fn authenticate_basic(value: &str, default_domain: &str) -> (r: Result<NtlmCredentials, String>)
    ensures
        creds_result_view(r) == basic_outcome(value@, default_domain@),
{
    let trimmed = text::trim_string(value);
    let raw = match crypto::standard_decode(trimmed.as_str().as_bytes()) {
        Ok(raw) => raw,
        Err(_) => return Err(String::from_str("invalid Authorization header: invalid base64")),
    };
    let decoded = match text::string_from_utf8(raw) {
        Ok(s) => s,
        Err(_) => return Err(String::from_str("invalid Authorization header: invalid utf-8")),
    };
    let chars = chars_of(decoded.as_str());
    let (user, password) = match split_once_chars(chars.as_slice(), ':') {
        Some(p) => p,
        None => return Err(String::from_str("invalid Authorization header: missing colon")),
    };
    if user.len() == 0 {
        return Err(String::from_str("invalid Authorization header: empty user"));
    }
    let user_s = string_from_chars(user.as_slice());
    let (domain, username) = split_ntlm_user(user_s.as_str(), default_domain);
    Ok(NtlmCredentials { username, password: string_from_chars(password.as_slice()), domain })
}

/// A required Digest field, or the message naming it.
pub open spec fn field_or(m: Map<Seq<char>, Seq<char>>, name: Seq<char>) -> Result<Seq<char>, Seq<char>> {
    if m.contains_key(name) {
        Ok(m[name])
    } else {
        Err("Digest field missing: "@ + name)
    }
}

/// An optional Digest field, empty where absent.
pub open spec fn optional_field(m: Map<Seq<char>, Seq<char>>, name: Seq<char>) -> Seq<char> {
    if m.contains_key(name) {
        m[name]
    } else {
        Seq::empty()
    }
}

/// The value of the field `name`, or the message naming the missing field.
pub fn required_field(fields: &DigestFields, name: &str) -> (r: Result<String, String>)
    ensures
        match r {
            Ok(v) => field_or(fields@, name@) == Ok::<Seq<char>, Seq<char>>(v@),
            Err(e) => field_or(fields@, name@) == Err::<Seq<char>, Seq<char>>(e@),
        },
{
    match fields.get(name) {
        Some(v) => Ok(v.clone()),
        None => {
            let mut msg = String::from_str("Digest field missing: ");
            msg.append(name);
            Err(msg)
        },
    }
}

fn optional_field_of(fields: &DigestFields, name: &str) -> (r: String)
    ensures
        r@ == optional_field(fields@, name@),
{
    match fields.get(name) {
        Some(v) => v.clone(),
        None => String::new(),
    }
}

/// `i` is the first configured user named `name`.
pub open spec fn is_first_user(users: Seq<UserConfig>, name: Seq<char>, i: int) -> bool {
    &&& 0 <= i < users.len()
    &&& users[i].username@ == name
    &&& forall|k: int| 0 <= k < i ==> users[k].username@ != name
}

/// The Digest response a client owes (RFC 2617 with MD5): from the user's
/// name, the realm and the password (HA1), the method and the URI (HA2), the
/// nonce, and with `qop=auth` the nonce count and the client nonce.
pub open spec fn expected_response(
    username: Seq<char>,
    password: Seq<char>,
    realm: Seq<char>,
    method: Seq<char>,
    uri: Seq<char>,
    nonce: Seq<char>,
    qop: Seq<char>,
    nc: Seq<char>,
    cnonce: Seq<char>,
) -> Seq<char> {
    let ha1 = md5_hex_of(username + ":"@ + realm + ":"@ + password);
    let ha2 = md5_hex_of(method + ":"@ + uri);
    if qop == "auth"@ {
        md5_hex_of(ha1 + ":"@ + nonce + ":"@ + nc + ":"@ + cnonce + ":auth:"@ + ha2)
    } else {
        md5_hex_of(ha1 + ":"@ + nonce + ":"@ + ha2)
    }
}

/// What a Digest credential with the fields `m` gives, once the fields are
/// read: the realm must be the configured one, the nonce must pass its
/// check at `now`, the URI must be the request target, the user must be
/// configured, the quality of protection must be `auth` or absent (and with
/// `auth` the nonce count and client nonce present), and the response must
/// be the one the user's password gives.
pub open spec fn digest_fields_outcome(
    m: Map<Seq<char>, Seq<char>>,
    method: Seq<char>,
    path: Option<Seq<char>>,
    auth: AuthConfig,
    default_domain: Seq<char>,
    now: u64,
) -> Result<CredentialsView, Seq<char>> {
    match field_or(m, "username"@) {
        Err(e) => Err(e),
        Ok(username) => match field_or(m, "realm"@) {
            Err(e) => Err(e),
            Ok(realm) => match field_or(m, "nonce"@) {
                Err(e) => Err(e),
                Ok(nonce) => match field_or(m, "uri"@) {
                    Err(e) => Err(e),
                    Ok(uri) => match field_or(m, "response"@) {
                        Err(e) => Err(e),
                        Ok(response) => {
                            let qop = optional_field(m, "qop"@);
                            let nc = optional_field(m, "nc"@);
                            let cnonce = optional_field(m, "cnonce"@);
                            let target = match path {
                                Some(p) => p,
                                None => "/"@,
                            };
                            if realm != auth.realm@ {
                                Err("invalid Digest realm"@)
                            } else if nonce_check(nonce, auth, now) is Err {
                                Err(nonce_check(nonce, auth, now)->Err_0)
                            } else if uri != target {
                                Err("Digest uri does not match request target"@)
                            } else if !exists|i: int| is_first_user(auth.users@, username, i) {
                                Err("unknown Digest user"@)
                            } else if qop != "auth"@ && qop.len() != 0 {
                                Err("unsupported Digest qop"@)
                            } else if qop == "auth"@ && (nc.len() == 0 || cnonce.len() == 0) {
                                Err("Digest qop requires nc and cnonce"@)
                            } else {
                                let user = auth.users@[choose|i: int| is_first_user(auth.users@, username, i)];
                                if expected_response(user.username@, user.password@, auth.realm@, method, uri, nonce, qop, nc, cnonce) != response {
                                    Err("invalid Digest response"@)
                                } else {
                                    Ok(user_credentials(user, default_domain))
                                }
                            }
                        },
                    },
                },
            },
        },
    }
}

/// What `authenticate_digest_at` gives for the value after `Digest `.
pub open spec fn digest_outcome(
    value: Seq<char>,
    method: Seq<char>,
    path: Option<Seq<char>>,
    auth: AuthConfig,
    default_domain: Seq<char>,
    now: u64,
) -> Result<CredentialsView, Seq<char>> {
    if auth.users@.len() == 0 {
        Err("Digest authentication is not configured"@)
    } else {
        match digest_fields(value) {
            None => Err("invalid Digest field"@),
            Some(pairs) => digest_fields_outcome(field_map(pairs), method, path, auth, default_domain, now),
        }
    }
}

fn concat3(a: &str, b: &str, c: &str) -> (r: String)
    ensures
        r@ == a@ + b@ + c@,
{
    let mut s = String::from_str(a);
    s.append(b);
    s.append(c);
    s
}

/// The expected Digest response for a user.
fn expected_response_of(
    user: &UserConfig,
    realm: &str,
    method: &str,
    uri: &str,
    nonce: &str,
    qop: &str,
    nc: &str,
    cnonce: &str,
) -> (r: String)
    ensures
        r@ == expected_response(user.username@, user.password@, realm@, method@, uri@, nonce@, qop@, nc@, cnonce@),
{
    let mut a1 = concat3(user.username.as_str(), ":", realm);
    a1.append(":");
    a1.append(user.password.as_str());
    let ha1 = md5_hex(a1.as_str());
    let ha2 = md5_hex(concat3(method, ":", uri).as_str());
    if text::str_eq(qop, "auth") {
        let mut s = concat3(ha1.as_str(), ":", nonce);
        s.append(":");
        s.append(nc);
        s.append(":");
        s.append(cnonce);
        s.append(":auth:");
        s.append(ha2.as_str());
        md5_hex(s.as_str())
    } else {
        let mut s = concat3(ha1.as_str(), ":", nonce);
        s.append(":");
        s.append(ha2.as_str());
        md5_hex(s.as_str())
    }
}

/// Finds the first configured user named `name`.
fn find_user(users: &Vec<UserConfig>, name: &str) -> (r: Option<usize>)
    ensures
        match r {
            Some(i) => is_first_user(users@, name@, i as int),
            None => !exists|i: int| is_first_user(users@, name@, i),
        },
{
    let mut i: usize = 0;
    while i < users.len()
        invariant
            i <= users@.len(),
            forall|k: int| 0 <= k < i ==> users@[k].username@ != name@,
        decreases users.len() - i,
    {
        if text::str_eq(users[i].username.as_str(), name) {
            return Some(i);
        }
        i = i + 1;
    }
    None
}

/// Checks a Digest credential (the value after `Digest `) at time `now`
/// against the configured users.
pub fn authenticate_digest_at(
    value: &str,
    method: &str,
    path_and_query: Option<&str>,
    auth: &AuthConfig,
    default_domain: &str,
    now: u64,
) -> (r: Result<NtlmCredentials, String>)
    ensures
        creds_result_view(r) == digest_outcome(value@, method@, opt_str_view(path_and_query), *auth, default_domain@, now),
{
    if auth.users.len() == 0 {
        return Err(String::from_str("Digest authentication is not configured"));
    }
    let fields = parse_digest_fields(value)?;
    let username = required_field(&fields, "username")?;
    let realm = required_field(&fields, "realm")?;
    let nonce = required_field(&fields, "nonce")?;
    let digest_uri = required_field(&fields, "uri")?;
    let response = required_field(&fields, "response")?;
    let qop = optional_field_of(&fields, "qop");
    let nc = optional_field_of(&fields, "nc");
    let cnonce = optional_field_of(&fields, "cnonce");
    if !text::str_eq(realm.as_str(), auth.realm.as_str()) {
        return Err(String::from_str("invalid Digest realm"));
    }
    verify_nonce_at(nonce.as_str(), auth, now)?;
    let expected_uri: &str = match path_and_query {
        Some(p) => p,
        None => "/",
    };
    if !text::str_eq(digest_uri.as_str(), expected_uri) {
        return Err(String::from_str("Digest uri does not match request target"));
    }
    let idx = match find_user(&auth.users, username.as_str()) {
        Some(i) => i,
        None => return Err(String::from_str("unknown Digest user")),
    };
    let user = &auth.users[idx];
    let qop_is_auth = text::str_eq(qop.as_str(), "auth");
    if !qop_is_auth && !qop.as_str().is_empty() {
        return Err(String::from_str("unsupported Digest qop"));
    }
    if qop_is_auth && (nc.as_str().is_empty() || cnonce.as_str().is_empty()) {
        return Err(String::from_str("Digest qop requires nc and cnonce"));
    }
    let expected = expected_response_of(
        user,
        auth.realm.as_str(),
        method,
        digest_uri.as_str(),
        nonce.as_str(),
        qop.as_str(),
        nc.as_str(),
        cnonce.as_str(),
    );
    proof {
        let j = choose|i: int| is_first_user(auth.users@, username@, i);
        lemma_first_user_unique(auth.users@, username@, idx as int, j);
    }
    let same = crypto::constant_time_eq(expected.as_str().as_bytes(), response.as_str().as_bytes());
    proof {
        assert(decode_utf8(encode_utf8(expected@)) == expected@);
        assert(decode_utf8(encode_utf8(response@)) == response@);
    }
    if !same {
        return Err(String::from_str("invalid Digest response"));
    }
    Ok(credentials_from_user(user, default_domain))
}

proof fn lemma_first_user_unique(users: Seq<UserConfig>, name: Seq<char>, i: int, j: int)
    requires
        is_first_user(users, name, i),
        is_first_user(users, name, j),
    ensures
        i == j,
{
    if i < j {
        assert(users[i].username@ != name);
    } else if j < i {
        assert(users[j].username@ != name);
    }
}

/// Checks a Digest credential (the value after `Digest `) at the current time.
pub fn authenticate_digest(
    value: &str,
    method: &str,
    path_and_query: Option<&str>,
    auth: &AuthConfig,
    default_domain: &str,
) -> (r: Result<NtlmCredentials, String>)
    ensures
        exists|t: u64|
            creds_result_view(r) == digest_outcome(value@, method@, opt_str_view(path_and_query), *auth, default_domain@, t),
{
    authenticate_digest_at(value, method, path_and_query, auth, default_domain, crypto::unix_time_secs())
}

/// A byte an HTTP header value may hold and still be read as text: visible
/// ASCII or a tab.
pub open spec fn is_visible_ascii(b: u8) -> bool {
    (32 <= b && b < 127) || b == 9
}

/// A header value as text, where all its bytes are visible ASCII or tabs
/// (what `HeaderValue::to_str` accepts).
pub fn header_value_str(bytes: &[u8]) -> (r: Option<&str>)
    ensures
        r is Some <==> forall|i: int| 0 <= i < bytes@.len() ==> is_visible_ascii(#[trigger] bytes@[i]),
        r matches Some(s) ==> s@ == text::latin1_chars(bytes@) && s.spec_bytes() == bytes@,
{
    let mut i: usize = 0;
    while i < bytes.len()
        invariant
            i <= bytes@.len(),
            forall|k: int| 0 <= k < i ==> is_visible_ascii(#[trigger] bytes@[k]),
        decreases bytes.len() - i,
    {
        let b = bytes[i];
        if !((32 <= b && b < 127) || b == 9) {
            return None;
        }
        i = i + 1;
    }
    let ghost cs = text::latin1_chars(bytes@);
    proof {
        assert(is_ascii_chars(cs));
        is_ascii_chars_encode_utf8(cs);
        assert forall|k: int| 0 <= k < bytes@.len() implies encode_utf8(cs)[k] == bytes@[k] by {
            assert(cs[k] == bytes@[k] as char);
            assert((bytes@[k] as char) as u8 == bytes@[k]);
        }
        assert(encode_utf8(cs) =~= bytes@);
    }
    match text::str_from_utf8(bytes) {
        Some(s) => {
            proof {
                assert(decode_utf8(encode_utf8(s@)) == s@);
                assert(decode_utf8(encode_utf8(cs)) == cs);
            }
            Some(s)
        },
        None => {
            assert(false);
            None
        },
    }
}

/// The text of the rest of a header after a scheme prefix.
pub open spec fn rest_text(b: Seq<u8>) -> Seq<char> {
    decode_utf8(b)
}

/// Why and how a request's `Authorization` header is answered at time `now`:
/// a missing or unreadable header is refused; a `Basic ` or `Digest `
/// header (scheme matched ignoring ASCII case) is checked as such; any
/// other scheme is refused.
pub open spec fn authorization_outcome(
    header: Option<Seq<u8>>,
    method: Seq<char>,
    path: Option<Seq<char>>,
    auth: AuthConfig,
    default_domain: Seq<char>,
    now: u64,
) -> Result<CredentialsView, Seq<char>> {
    match header {
        None => Err("missing Authorization header"@),
        Some(bytes) => if !(forall|i: int| 0 <= i < bytes.len() ==> is_visible_ascii(#[trigger] bytes[i])) {
            Err("invalid Authorization header: non-ascii header"@)
        } else {
            let h = text::latin1_chars(bytes);
            match ascii_prefix_rest(h, "Basic "@) {
                Some(rest) => basic_outcome(rest_text(rest), default_domain),
                None => match ascii_prefix_rest(h, "Digest "@) {
                    Some(rest) => digest_outcome(rest_text(rest), method, path, auth, default_domain, now),
                    None => Err("invalid Authorization header: expected Basic or Digest scheme"@),
                },
            }
        },
    }
}

/// The spec view of an optional byte slice.
pub open spec fn opt_bytes_view(o: Option<&[u8]>) -> Option<Seq<u8>> {
    match o {
        Some(b) => Some(b@),
        None => None,
    }
}

fn unauthorized(message: String, challenges: Vec<String>) -> (e: BridgeError)
    ensures
        e == (BridgeError::Unauthorized { message, challenges }),
{
    BridgeError::Unauthorized { message, challenges }
}

/// Whether `r` answers a request as `authorization_outcome` says at time
/// `now`: the credentials on success, and on refusal an `Unauthorized` error
/// with the refusal message and the challenges offered at `now`.
pub open spec fn answers_authorization(
    r: Result<NtlmCredentials, BridgeError>,
    header: Option<Seq<u8>>,
    method: Seq<char>,
    path: Option<Seq<char>>,
    auth: AuthConfig,
    default_domain: Seq<char>,
    now: u64,
) -> bool {
    match r {
        Ok(c) => authorization_outcome(header, method, path, auth, default_domain, now) == Ok::<CredentialsView, Seq<char>>(c@),
        Err(e) => match e {
            BridgeError::Unauthorized { message, challenges } => {
                &&& authorization_outcome(header, method, path, auth, default_domain, now) == Err::<CredentialsView, Seq<char>>(message@)
                &&& strings_view(challenges@) == challenges_at(auth, now)
            },
            _ => false,
        },
    }
}

/// Authenticates a request at time `now` from its `Authorization` header
/// (raw bytes), method and target. A refusal carries the message and the
/// challenges offered at `now`.
pub fn authenticate_at(
    authorization: Option<&[u8]>,
    method: &str,
    path_and_query: Option<&str>,
    auth: &AuthConfig,
    default_domain: &str,
    now: u64,
) -> (r: Result<NtlmCredentials, BridgeError>)
    ensures
        answers_authorization(r, opt_bytes_view(authorization), method@, opt_str_view(path_and_query), *auth, default_domain@, now),
{
    let challenges = challenge_headers_at(auth, now);
    let bytes = match authorization {
        Some(b) => b,
        None => return Err(unauthorized(String::from_str("missing Authorization header"), challenges)),
    };
    let header = match header_value_str(bytes) {
        Some(h) => h,
        None => return Err(unauthorized(String::from_str("invalid Authorization header: non-ascii header"), challenges)),
    };
    proof {
        assert(decode_utf8(encode_utf8(header@)) == header@);
    }
    if let Some(value) = strip_ascii_prefix(header, "Basic ") {
        proof {
            assert(decode_utf8(encode_utf8(value@)) == value@);
        }
        return match authenticate_basic(value, default_domain) {
            Ok(c) => Ok(c),
            Err(message) => Err(unauthorized(message, challenges)),
        };
    }
    if let Some(value) = strip_ascii_prefix(header, "Digest ") {
        proof {
            assert(decode_utf8(encode_utf8(value@)) == value@);
        }
        return match authenticate_digest_at(value, method, path_and_query, auth, default_domain, now) {
            Ok(c) => Ok(c),
            Err(message) => Err(unauthorized(message, challenges)),
        };
    }
    Err(unauthorized(String::from_str("invalid Authorization header: expected Basic or Digest scheme"), challenges))
}

/// Authenticates a request at the current time.
pub fn authenticate(
    authorization: Option<&[u8]>,
    method: &str,
    path_and_query: Option<&str>,
    auth: &AuthConfig,
    default_domain: &str,
) -> (r: Result<NtlmCredentials, BridgeError>)
    ensures
        exists|t: u64|
            #[trigger] answers_authorization(r, opt_bytes_view(authorization), method@, opt_str_view(path_and_query), *auth, default_domain@, t),
{
    authenticate_at(authorization, method, path_and_query, auth, default_domain, crypto::unix_time_secs())
}


/// Basic credentials decode to the user and the password: where the value
/// after `Basic ` decodes to the UTF-8 text `user:password`, with `user`
/// non-empty and free of colons (the password may hold colons), the client
/// is authenticated as `user` with `password`, `user` split into domain and
/// name where it is `DOMAIN\name`.
pub proof fn lemma_basic_credentials(value: Seq<char>, default_domain: Seq<char>, user: Seq<char>, password: Seq<char>)
    requires
        user.len() > 0,
        !user.contains(':'),
        crypto::base64_standard_decode(encode_utf8(text::trim(value))) == Ok::<Seq<u8>, Seq<char>>(
            encode_utf8(user + seq![':'] + password),
        ),
    ensures
        basic_outcome(value, default_domain) == Ok::<CredentialsView, Seq<char>>(
            CredentialsView {
                username: ntlm_user_parts(user, default_domain).1,
                password,
                domain: ntlm_user_parts(user, default_domain).0,
            },
        ),
{
    let whole = user + seq![':'] + password;
    assert(decode_utf8(encode_utf8(whole)) == whole);
    let i = user.len() as int;
    assert(is_first(whole, ':', i)) by {
        assert forall|k: int| 0 <= k < i implies whole[k] != ':' by {
            assert(whole[k] == user[k]);
        }
    }
    let j = choose|j: int| is_first(whole, ':', j);
    lemma_first_unique(whole, ':', i, j);
    assert(whole.subrange(0, i) =~= user);
    assert(whole.subrange(i + 1, whole.len() as int) =~= password);
}

/// The Digest fields `m` answer the challenge as RFC 2617 prescribes for the
/// `i`-th configured user: they name that user (the first with that name),
/// the configured realm, a nonce that passes its check at `now` and the
/// request target; they carry no quality of protection, or `auth` with a
/// nonce count and a client nonce; and the response is the one the user's
/// password gives.
pub open spec fn answers_as_user(
    m: Map<Seq<char>, Seq<char>>,
    method: Seq<char>,
    path: Option<Seq<char>>,
    auth: AuthConfig,
    now: u64,
    i: int,
) -> bool {
    &&& m.contains_key("username"@)
    &&& m.contains_key("realm"@)
    &&& m.contains_key("nonce"@)
    &&& m.contains_key("uri"@)
    &&& m.contains_key("response"@)
    &&& is_first_user(auth.users@, m["username"@], i)
    &&& m["realm"@] == auth.realm@
    &&& nonce_check(m["nonce"@], auth, now) is Ok
    &&& m["uri"@] == (match path {
        Some(p) => p,
        None => "/"@,
    })
    &&& (optional_field(m, "qop"@).len() == 0 || (optional_field(m, "qop"@) == "auth"@ && optional_field(m, "nc"@).len() > 0
        && optional_field(m, "cnonce"@).len() > 0))
    &&& m["response"@] == expected_response(
        auth.users@[i].username@,
        auth.users@[i].password@,
        auth.realm@,
        method,
        m["uri"@],
        m["nonce"@],
        optional_field(m, "qop"@),
        optional_field(m, "nc"@),
        optional_field(m, "cnonce"@),
    )
}

/// A Digest credential computed as RFC 2617 prescribes is accepted: fields
/// that answer the challenge for a configured user authenticate the client
/// as that user's NTLM identity.
pub proof fn lemma_digest_round_trip(
    m: Map<Seq<char>, Seq<char>>,
    method: Seq<char>,
    path: Option<Seq<char>>,
    auth: AuthConfig,
    default_domain: Seq<char>,
    now: u64,
    i: int,
)
    requires
        answers_as_user(m, method, path, auth, now, i),
    ensures
        digest_fields_outcome(m, method, path, auth, default_domain, now) == Ok::<CredentialsView, Seq<char>>(
            user_credentials(auth.users@[i], default_domain),
        ),
{
    let j = choose|j: int| is_first_user(auth.users@, m["username"@], j);
    lemma_first_user_unique(auth.users@, m["username"@], i, j);
    assert(is_first_user(auth.users@, m["username"@], i));
    reveal_strlit("auth");
    if optional_field(m, "qop"@) == "auth"@ {
    } else {
        assert(optional_field(m, "qop"@).len() == 0);
    }
}


proof fn lemma_escape_front(c: char, t: Seq<char>)
    ensures
        escape_quoted(seq![c] + t) == escape_char(c) + escape_quoted(t),
    decreases t.len(),
{
    let u = seq![c] + t;
    if t.len() == 0 {
        assert(u.drop_last() =~= Seq::<char>::empty());
        assert(u.last() == c);
        assert(escape_quoted(u) =~= escape_quoted(Seq::<char>::empty()) + escape_char(c));
        assert(escape_char(c) + escape_quoted(t) =~= escape_char(c));
    } else {
        lemma_escape_front(c, t.drop_last());
        assert(u.drop_last() =~= seq![c] + t.drop_last());
        assert(u.last() == t.last());
        assert(escape_quoted(u) =~= escape_quoted(u.drop_last()) + escape_char(t.last()));
        assert(escape_quoted(t) =~= escape_quoted(t.drop_last()) + escape_char(t.last()));
        assert(escape_quoted(u) =~= escape_char(c) + escape_quoted(t));
    }
}

proof fn lemma_escape_ascii(s: Seq<char>)
    requires
        is_ascii_chars(s),
    ensures
        is_ascii_chars(escape_quoted(s)),
    decreases s.len(),
{
    if s.len() > 0 {
        lemma_escape_ascii(s.drop_last());
        let e = escape_quoted(s.drop_last());
        let tail = escape_char(s.last());
        assert(is_ascii_chars(tail));
        assert forall|i: int| 0 <= i < escape_quoted(s).len() implies '\0' <= #[trigger] escape_quoted(s)[i] <= '\u{7f}' by {
            if i < e.len() {
                assert(escape_quoted(s)[i] == e[i]);
            } else {
                assert(escape_quoted(s)[i] == tail[i - e.len()]);
            }
        }
    }
}

proof fn lemma_quoted_from(s: Seq<char>, b: Seq<u8>, p: int)
    requires
        is_ascii_chars(s),
        0 <= p,
        p + escape_quoted(s).len() < b.len(),
        forall|k: int| 0 <= k < escape_quoted(s).len() ==> b[p + k] == #[trigger] escape_quoted(s)[k] as u8,
        b[p + escape_quoted(s).len()] == 34,
    ensures
        quoted_value(b, p) == (s, p + escape_quoted(s).len() + 1),
    decreases s.len(),
{
    if s.len() == 0 {
        assert(escape_quoted(s).len() == 0);
    } else {
        let c = s[0];
        let t = s.drop_first();
        assert(s =~= seq![c] + t);
        lemma_escape_front(c, t);
        assert(is_ascii_chars(t));
        let e = escape_quoted(s);
        let et = escape_quoted(t);
        assert('\0' <= c <= '\u{7f}');
        if c == '\\' || c == '"' {
            assert(e[0] == '\\');
            assert(e[1] == c);
            assert(b[p] == 92);
            assert(b[p + 1] == c as u8);
            assert forall|k: int| 0 <= k < et.len() implies b[(p + 2) + k] == #[trigger] et[k] as u8 by {
                assert(e[k + 2] == et[k]);
                assert(b[p + (k + 2)] == e[k + 2] as u8);
            }
            lemma_quoted_from(t, b, p + 2);
            assert(seq![(b[p + 1]) as char] + t =~= s);
        } else {
            assert(e[0] == c);
            assert(b[p] == c as u8);
            assert(b[p] != 92 && b[p] != 34);
            assert forall|k: int| 0 <= k < et.len() implies b[(p + 1) + k] == #[trigger] et[k] as u8 by {
                assert(e[k + 1] == et[k]);
                assert(b[p + (k + 1)] == e[k + 1] as u8);
            }
            lemma_quoted_from(t, b, p + 1);
            assert(seq![(b[p]) as char] + t =~= s);
        }
    }
}

/// A realm advertised in a challenge reads back from a client's quoted echo
/// of it: the Digest parser, reading the escaped ASCII realm followed by the
/// closing quote, gives the realm and the position after the quote. (A
/// realm beyond ASCII does not read back: the parser takes each byte of a
/// quoted value for the character with that code.)
pub proof fn lemma_realm_read_back(realm: Seq<char>, rest: Seq<u8>)
    requires
        is_ascii_chars(realm),
    ensures
        quoted_value(encode_utf8(escape_quoted(realm)) + seq![34u8] + rest, 0) == (
            realm,
            escape_quoted(realm).len() as int + 1,
        ),
{
    let e = escape_quoted(realm);
    lemma_escape_ascii(realm);
    is_ascii_chars_encode_utf8(e);
    let b = encode_utf8(e) + seq![34u8] + rest;
    assert forall|k: int| 0 <= k < e.len() implies b[0 + k] == #[trigger] e[k] as u8 by {
        assert(b[k] == encode_utf8(e)[k]);
    }
    assert(b[e.len() as int] == 34);
    lemma_quoted_from(realm, b, 0);
}


/// Only configured users pass Digest: a credential whose user name no
/// configured user has is refused.
pub proof fn lemma_digest_needs_configured_user(
    m: Map<Seq<char>, Seq<char>>,
    method: Seq<char>,
    path: Option<Seq<char>>,
    auth: AuthConfig,
    default_domain: Seq<char>,
    now: u64,
)
    requires
        m.contains_key("username"@),
        forall|k: int| 0 <= k < auth.users@.len() ==> (#[trigger] auth.users@[k]).username@ != m["username"@],
    ensures
        digest_fields_outcome(m, method, path, auth, default_domain, now) is Err,
{
    assert(!exists|i: int| is_first_user(auth.users@, m["username"@], i));
}


/// A character a header value can carry as text: printable ASCII or a tab.
pub open spec fn is_header_text_char(c: char) -> bool {
    (' ' <= c && c <= '~') || c == '\t'
}

/// A Digest `Authorization` header whose fields answer the challenge for a
/// configured user is answered with that user's NTLM identity: the header
/// is read as text, its scheme is recognised, its fields are parsed, and
/// the credential passes.
pub proof fn lemma_digest_header_accepted(
    fields: Seq<char>,
    pairs: Seq<(Seq<char>, Seq<char>)>,
    method: Seq<char>,
    path: Option<Seq<char>>,
    auth: AuthConfig,
    default_domain: Seq<char>,
    now: u64,
    i: int,
)
    requires
        forall|k: int| 0 <= k < fields.len() ==> is_header_text_char(#[trigger] fields[k]),
        digest_fields(fields) == Some(pairs),
        answers_as_user(field_map(pairs), method, path, auth, now, i),
    ensures
        authorization_outcome(
            Some(encode_utf8("Digest "@ + fields)),
            method,
            path,
            auth,
            default_domain,
            now,
        ) == Ok::<CredentialsView, Seq<char>>(user_credentials(auth.users@[i], default_domain)),
{
    reveal_strlit("Digest ");
    reveal_strlit("Basic ");
    let h = "Digest "@ + fields;
    assert(is_ascii_chars(h)) by {
        assert forall|k: int| 0 <= k < h.len() implies '\0' <= #[trigger] h[k] <= '\u{7f}' by {
            if k >= 7 {
                assert(h[k] == fields[k - 7]);
                assert(is_header_text_char(fields[k - 7]));
            }
        }
    }
    is_ascii_chars_encode_utf8(h);
    let b = encode_utf8(h);
    assert forall|k: int| 0 <= k < b.len() implies is_visible_ascii(#[trigger] b[k]) by {
        assert(b[k] == h[k] as u8);
        if k >= 7 {
            assert(h[k] == fields[k - 7]);
            assert(is_header_text_char(fields[k - 7]));
        }
    }
    assert(text::latin1_chars(b) =~= h) by {
        assert forall|k: int| 0 <= k < b.len() implies text::latin1_chars(b)[k] == h[k] by {
            assert(b[k] == h[k] as u8);
        }
    }
    let basic = "Basic "@;
    is_ascii_chars_encode_utf8(basic);
    assert(encode_utf8(basic)[0] == 66u8);
    assert(b[0] == 68u8);
    assert(!text::bytes_eq_ignore_ascii_case(b.subrange(0, 6), encode_utf8(basic))) by {
        assert(b.subrange(0, 6)[0] == 68u8);
    }
    let digest = "Digest "@;
    is_ascii_chars_encode_utf8(digest);
    assert(b.subrange(0, 7) =~= encode_utf8(digest)) by {
        assert forall|k: int| 0 <= k < 7 implies b.subrange(0, 7)[k] == encode_utf8(digest)[k] by {
            assert(b[k] == h[k] as u8);
            assert(h[k] == digest[k]);
        }
    }
    text::lemma_boundary_after_ascii(b, 7);
    let rest = b.subrange(7, b.len() as int);
    assert(is_ascii_chars(fields)) by {
        assert forall|k: int| 0 <= k < fields.len() implies '\0' <= #[trigger] fields[k] <= '\u{7f}' by {
            assert(is_header_text_char(fields[k]));
        }
    }
    is_ascii_chars_encode_utf8(fields);
    assert(rest =~= encode_utf8(fields)) by {
        assert forall|k: int| 0 <= k < rest.len() implies rest[k] == encode_utf8(fields)[k] by {
            assert(rest[k] == b[k + 7]);
            assert(b[k + 7] == h[k + 7] as u8);
            assert(h[k + 7] == fields[k]);
        }
    }
    assert(decode_utf8(encode_utf8(fields)) == fields);
    lemma_digest_round_trip(field_map(pairs), method, path, auth, default_domain, now, i);
    assert(auth.users@.len() > 0);
}

/// A character a client may put in a field name: printable ASCII other than
/// a space, a comma, `=` or an upper-case letter.
pub open spec fn is_name_char(c: char) -> bool {
    '!' <= c && c <= '~' && c != ',' && c != '=' && !('A' <= c && c <= 'Z')
}

/// A character a client may put in an unquoted value: printable ASCII other
/// than a space, a comma or a double quote.
pub open spec fn is_plain_char(c: char) -> bool {
    '!' <= c && c <= '~' && c != ',' && c != '"'
}

/// One field as a client writes it: `name="value"`, the value escaped, where
/// `quoted` holds, and `name=value` where it does not.
pub open spec fn written_field(name: Seq<char>, value: Seq<char>, quoted: bool) -> Seq<char> {
    if quoted {
        name + seq!['=', '"'] + escape_quoted(value) + seq!['"']
    } else {
        name + seq!['='] + value
    }
}

/// Fields as a client writes them, one after another, each but the first
/// after a comma and a space.
pub open spec fn written_fields(pairs: Seq<(Seq<char>, Seq<char>)>, quoted: Seq<bool>) -> Seq<char>
    decreases pairs.len(),
{
    if pairs.len() == 0 {
        Seq::empty()
    } else if pairs.len() == 1 {
        written_field(pairs[0].0, pairs[0].1, quoted[0])
    } else {
        written_field(pairs[0].0, pairs[0].1, quoted[0]) + seq![',', ' '] + written_fields(
            pairs.drop_first(),
            quoted.drop_first(),
        )
    }
}

/// A field a client can write: a name of name characters, not empty; a
/// quoted value of header text, or an unquoted one of plain characters.
pub open spec fn writable_field(name: Seq<char>, value: Seq<char>, quoted: bool) -> bool {
    &&& name.len() > 0
    &&& forall|k: int| 0 <= k < name.len() ==> is_name_char(#[trigger] name[k])
    &&& quoted ==> forall|k: int| 0 <= k < value.len() ==> is_header_text_char(#[trigger] value[k])
    &&& !quoted ==> forall|k: int| 0 <= k < value.len() ==> is_plain_char(#[trigger] value[k])
}

/// Fields that a client can write, each quoted or not as `quoted` says.
pub open spec fn writable_fields(pairs: Seq<(Seq<char>, Seq<char>)>, quoted: Seq<bool>) -> bool {
    &&& quoted.len() == pairs.len()
    &&& forall|k: int| 0 <= k < pairs.len() ==> writable_field(#[trigger] pairs[k].0, pairs[k].1, quoted[k])
}

proof fn lemma_escape_text(s: Seq<char>)
    requires
        forall|k: int| 0 <= k < s.len() ==> is_header_text_char(#[trigger] s[k]),
    ensures
        forall|k: int| 0 <= k < escape_quoted(s).len() ==> is_header_text_char(#[trigger] escape_quoted(s)[k]),
    decreases s.len(),
{
    if s.len() > 0 {
        let t = s.drop_last();
        lemma_escape_text(t);
        let e = escape_quoted(t);
        let c = escape_char(s.last());
        assert(is_header_text_char(s.last()));
        assert forall|k: int| 0 <= k < escape_quoted(s).len() implies is_header_text_char(#[trigger] escape_quoted(s)[k]) by {
            assert(escape_quoted(s) == e + c);
            if k < e.len() {
                assert(escape_quoted(s)[k] == e[k]);
            } else {
                assert(escape_quoted(s)[k] == c[k - e.len()]);
            }
        }
    }
}

proof fn lemma_written_field_text(name: Seq<char>, value: Seq<char>, quoted: bool)
    requires
        writable_field(name, value, quoted),
    ensures
        forall|k: int| 0 <= k < written_field(name, value, quoted).len() ==> is_header_text_char(
            #[trigger] written_field(name, value, quoted)[k],
        ),
{
    let f = written_field(name, value, quoted);
    if quoted {
        lemma_escape_text(value);
        let e = escape_quoted(value);
        assert forall|k: int| 0 <= k < f.len() implies is_header_text_char(#[trigger] f[k]) by {
            if k < name.len() {
                assert(f[k] == name[k]);
                assert(is_name_char(name[k]));
            } else if k < name.len() + 2 {
            } else if k < name.len() + 2 + e.len() {
                assert(f[k] == e[k - name.len() - 2]);
            }
        }
    } else {
        assert forall|k: int| 0 <= k < f.len() implies is_header_text_char(#[trigger] f[k]) by {
            if k < name.len() {
                assert(f[k] == name[k]);
                assert(is_name_char(name[k]));
            } else if k > name.len() {
                assert(f[k] == value[k - name.len() - 1]);
                assert(is_plain_char(value[k - name.len() - 1]));
            }
        }
    }
}

proof fn lemma_written_text(pairs: Seq<(Seq<char>, Seq<char>)>, quoted: Seq<bool>)
    requires
        writable_fields(pairs, quoted),
    ensures
        forall|k: int| 0 <= k < written_fields(pairs, quoted).len() ==> is_header_text_char(
            #[trigger] written_fields(pairs, quoted)[k],
        ),
    decreases pairs.len(),
{
    if pairs.len() > 0 {
        let f = written_field(pairs[0].0, pairs[0].1, quoted[0]);
        assert(writable_field(pairs[0].0, pairs[0].1, quoted[0]));
        lemma_written_field_text(pairs[0].0, pairs[0].1, quoted[0]);
        if pairs.len() > 1 {
            let rp = pairs.drop_first();
            let rq = quoted.drop_first();
            assert forall|k: int| 0 <= k < rp.len() implies writable_field(#[trigger] rp[k].0, rp[k].1, rq[k]) by {
                assert(rp[k] == pairs[k + 1]);
                assert(writable_field(pairs[k + 1].0, pairs[k + 1].1, quoted[k + 1]));
            }
            lemma_written_text(rp, rq);
            let r = written_fields(rp, rq);
            let w = written_fields(pairs, quoted);
            assert(w == f + seq![',', ' '] + r);
            assert forall|k: int| 0 <= k < w.len() implies is_header_text_char(#[trigger] w[k]) by {
                if k < f.len() {
                    assert(w[k] == f[k]);
                } else if k < f.len() + 2 {
                } else {
                    assert(w[k] == r[k - f.len() - 2]);
                }
            }
        }
    }
}

proof fn lemma_skip_run(b: Seq<u8>, i: int, n: int)
    requires
        0 <= i,
        0 <= n,
        i + n <= b.len(),
        forall|k: int| i <= k < i + n ==> is_field_separator(#[trigger] b[k]),
        i + n == b.len() || !is_field_separator(b[i + n]),
    ensures
        skip_separators(b, i) == i + n,
    decreases n,
{
    if n > 0 {
        assert(is_field_separator(b[i]));
        lemma_skip_run(b, i + 1, n - 1);
    }
}

proof fn lemma_find_run(b: Seq<u8>, i: int, n: int, x: u8)
    requires
        0 <= i,
        0 <= n,
        i + n <= b.len(),
        forall|k: int| i <= k < i + n ==> #[trigger] b[k] != x,
        i + n == b.len() || b[i + n] == x,
    ensures
        find_byte(b, i, x) == i + n,
    decreases n,
{
    if n > 0 {
        assert(b[i] != x);
        lemma_find_run(b, i + 1, n - 1, x);
    }
}

/// Text with no white space in it is its own trimmed form.
proof fn lemma_trim_unchanged(s: Seq<char>)
    requires
        forall|k: int| 0 <= k < s.len() ==> !text::is_white_space(#[trigger] s[k]),
    ensures
        text::trim(s) == s,
{
    if s.len() > 0 {
        assert(!text::is_white_space(s[0]));
        assert(!text::is_white_space(s.last()));
    }
    assert(text::trim_start(s) == s);
}

/// The bytes of `pre` followed by ASCII text `t`, read at `pre.len() + k`,
/// are the codes of the characters of `t`.
proof fn lemma_after_prefix(pre: Seq<u8>, t: Seq<char>)
    requires
        is_ascii_chars(t),
    ensures
        (pre + encode_utf8(t)).len() == pre.len() + t.len(),
        forall|k: int| 0 <= k < t.len() ==> (pre + encode_utf8(t))[pre.len() + k] == #[trigger] t[k] as u8,
{
    is_ascii_chars_encode_utf8(t);
    assert forall|k: int| 0 <= k < t.len() implies (pre + encode_utf8(t))[pre.len() + k] == #[trigger] t[k] as u8 by {
        assert((pre + encode_utf8(t))[pre.len() + k] == encode_utf8(t)[k]);
    }
}

/// The name and value of a field written at position `j` of `b` read back,
/// and the field ends where its text ends; `b` goes on with a separator or
/// ends there.
proof fn lemma_field_at_written(b: Seq<u8>, j: int, name: Seq<char>, value: Seq<char>, quoted: bool)
    requires
        writable_field(name, value, quoted),
        0 <= j,
        j + written_field(name, value, quoted).len() <= b.len(),
        forall|k: int| 0 <= k < written_field(name, value, quoted).len() ==> b[j + k] == #[trigger] written_field(name, value, quoted)[k] as u8,
        j + written_field(name, value, quoted).len() == b.len() || b[j + written_field(name, value, quoted).len()] == 44,
    ensures
        field_at(b, j) == Some((name, value, j + written_field(name, value, quoted).len())),
{
    let f = written_field(name, value, quoted);
    let nl: int = name.len() as int;
    let e = j + nl;
    assert forall|k: int| j <= k < j + name.len() implies #[trigger] b[k] != 61u8 by {
        assert(f[k - j] == name[k - j]);
        assert(b[j + (k - j)] == f[k - j] as u8);
        assert(is_name_char(name[k - j]));
    }
    assert(f[nl] == '=');
    assert(b[j + name.len()] == f[nl] as u8);
    lemma_find_run(b, j, name.len() as int, 61);
    assert(is_ascii_chars(name)) by {
        assert forall|k: int| 0 <= k < name.len() implies '\0' <= #[trigger] name[k] <= '\u{7f}' by {
            assert(is_name_char(name[k]));
        }
    }
    is_ascii_chars_encode_utf8(name);
    assert(b.subrange(j, e) =~= encode_utf8(name)) by {
        assert forall|k: int| 0 <= k < name.len() implies b.subrange(j, e)[k] == encode_utf8(name)[k] by {
            assert(f[k] == name[k]);
            assert(b[j + k] == f[k] as u8);
        }
    }
    assert(decode_utf8(encode_utf8(name)) == name);
    assert forall|k: int| 0 <= k < name.len() implies !text::is_white_space(#[trigger] name[k]) by {
        assert(is_name_char(name[k]));
    }
    lemma_trim_unchanged(name);
    assert(text::ascii_lowercase(name) =~= name) by {
        assert forall|k: int| 0 <= k < name.len() implies text::ascii_lowercase(name)[k] == name[k] by {
            assert(is_name_char(name[k]));
        }
    }
    let v = e + 1;
    if quoted {
        let esc = escape_quoted(value);
        let el: int = esc.len() as int;
        assert(f == name + seq!['=', '"'] + esc + seq!['"']);
        assert(f[nl + 1] == '"');
        assert(b[j + (nl + 1)] == f[nl + 1] as u8);
        assert(is_ascii_chars(value)) by {
            assert forall|k: int| 0 <= k < value.len() implies '\0' <= #[trigger] value[k] <= '\u{7f}' by {
                assert(is_header_text_char(value[k]));
            }
        }
        assert forall|k: int| 0 <= k < esc.len() implies b[(v + 1) + k] == #[trigger] esc[k] as u8 by {
            assert(f[nl + 2 + k] == esc[k]);
            assert(b[j + (nl + 2 + k)] == f[nl + 2 + k] as u8);
        }
        assert(f[nl + 2 + el] == '"');
        assert(b[j + (nl + 2 + el)] == f[nl + 2 + el] as u8);
        lemma_quoted_from(value, b, v + 1);
    } else {
        assert(f == name + seq!['='] + value);
        assert forall|k: int| v <= k < v + value.len() implies #[trigger] b[k] != 44u8 by {
            assert(f[k - j] == value[k - v]);
            assert(b[j + (k - j)] == f[k - j] as u8);
            assert(is_plain_char(value[k - v]));
        }
        if value.len() > 0 {
            assert(f[nl + 1] == value[0]);
            assert(b[j + (nl + 1)] == f[nl + 1] as u8);
            assert(is_plain_char(value[0]));
        }
        lemma_find_run(b, v, value.len() as int, 44);
        assert(is_ascii_chars(value)) by {
            assert forall|k: int| 0 <= k < value.len() implies '\0' <= #[trigger] value[k] <= '\u{7f}' by {
                assert(is_plain_char(value[k]));
            }
        }
        is_ascii_chars_encode_utf8(value);
        assert(b.subrange(v, v + value.len()) =~= encode_utf8(value)) by {
            assert forall|k: int| 0 <= k < value.len() implies b.subrange(v, v + value.len())[k] == encode_utf8(value)[k] by {
                assert(f[nl + 1 + k] == value[k]);
                assert(b[j + (nl + 1 + k)] == f[nl + 1 + k] as u8);
            }
        }
        assert(decode_utf8(encode_utf8(value)) == value);
        assert forall|k: int| 0 <= k < value.len() implies !text::is_white_space(#[trigger] value[k]) by {
            assert(is_plain_char(value[k]));
        }
        lemma_trim_unchanged(value);
    }
}

#[verifier::spinoff_prover]
#[verifier::rlimit(40)]
proof fn lemma_fields_from_written(
    pre: Seq<u8>,
    sep: Seq<char>,
    pairs: Seq<(Seq<char>, Seq<char>)>,
    quoted: Seq<bool>,
    acc: Seq<(Seq<char>, Seq<char>)>,
)
    requires
        writable_fields(pairs, quoted),
        forall|k: int| 0 <= k < sep.len() ==> #[trigger] sep[k] == ',' || sep[k] == ' ',
    ensures
        fields_from(pre + encode_utf8(sep + written_fields(pairs, quoted)), pre.len() as int, acc) == Some(
            acc + pairs,
        ),
    decreases pairs.len(),
{
    let w = written_fields(pairs, quoted);
    let t = sep + w;
    let sl: int = sep.len() as int;
    lemma_written_text(pairs, quoted);
    assert(is_ascii_chars(t)) by {
        assert forall|k: int| 0 <= k < t.len() implies '\0' <= #[trigger] t[k] <= '\u{7f}' by {
            if k < sl {
                assert(t[k] == sep[k]);
            } else {
                assert(t[k] == w[k - sl]);
                assert(is_header_text_char(w[k - sl]));
            }
        }
    }
    lemma_after_prefix(pre, t);
    let b = pre + encode_utf8(t);
    let i0: int = pre.len() as int;
    assert forall|k: int| i0 <= k < i0 + sl implies is_field_separator(#[trigger] b[k]) by {
        assert(t[k - i0] == sep[k - i0]);
        assert(b[i0 + (k - i0)] == t[k - i0] as u8);
    }
    if pairs.len() == 0 {
        assert(w.len() == 0);
        lemma_skip_run(b, i0, sl);
        assert(acc + pairs =~= acc);
    } else {
        let name = pairs[0].0;
        let value = pairs[0].1;
        let q = quoted[0];
        assert(writable_field(name, value, q));
        let f = written_field(name, value, q);
        let j = i0 + sl;
        let next = j + f.len();
        assert(f.len() > 0 && f[0] == name[0]);
        assert(w.len() >= f.len() && w[0] == f[0]) by {
            if pairs.len() > 1 {
                assert(w == f + seq![',', ' '] + written_fields(pairs.drop_first(), quoted.drop_first()));
            }
        }
        assert(t[sl] == w[0]);
        assert(b[i0 + sl] == t[sl] as u8);
        assert(is_name_char(name[0]));
        lemma_skip_run(b, i0, sl);
        assert forall|k: int| 0 <= k < f.len() implies b[j + k] == #[trigger] f[k] as u8 by {
            assert(w[k] == f[k]) by {
                if pairs.len() > 1 {
                    assert(w == f + seq![',', ' '] + written_fields(pairs.drop_first(), quoted.drop_first()));
                }
            }
            assert(t[sl + k] == w[k]);
            assert(b[i0 + (sl + k)] == t[sl + k] as u8);
        }
        if pairs.len() == 1 {
            assert(w == f);
            lemma_field_at_written(b, j, name, value, q);
            assert(next == b.len());
            assert(skip_separators(b, next) == next);
            assert(fields_from(b, next, acc.push((name, value))) == Some(acc.push((name, value))));
            assert(acc.push((name, value)) =~= acc + pairs);
        } else {
            let rp = pairs.drop_first();
            let rq = quoted.drop_first();
            let r = written_fields(rp, rq);
            let sep2 = seq![',', ' '];
            assert(w == f + sep2 + r);
            assert(t[sl + f.len()] == ',');
            assert(b[i0 + (sl + f.len())] == t[sl + f.len()] as u8);
            lemma_field_at_written(b, j, name, value, q);
            assert forall|k: int| 0 <= k < rp.len() implies writable_field(#[trigger] rp[k].0, rp[k].1, rq[k]) by {
                assert(rp[k] == pairs[k + 1]);
                assert(writable_field(pairs[k + 1].0, pairs[k + 1].1, quoted[k + 1]));
            }
            let t2 = sep2 + r;
            lemma_written_text(rp, rq);
            assert(is_ascii_chars(t2)) by {
                assert forall|k: int| 0 <= k < t2.len() implies '\0' <= #[trigger] t2[k] <= '\u{7f}' by {
                    if k >= 2 {
                        assert(t2[k] == r[k - 2]);
                        assert(is_header_text_char(r[k - 2]));
                    }
                }
            }
            let pre2 = b.subrange(0, next);
            lemma_after_prefix(pre2, t2);
            assert(b =~= pre2 + encode_utf8(t2)) by {
                assert forall|k: int| 0 <= k < b.len() implies b[k] == (pre2 + encode_utf8(t2))[k] by {
                    if k >= next {
                        let m = k - next;
                        assert(t[sl + f.len() + m] == t2[m]);
                        assert(b[i0 + (sl + f.len() + m)] == t[sl + f.len() + m] as u8);
                        assert((pre2 + encode_utf8(t2))[pre2.len() + m] == t2[m] as u8);
                    }
                }
            }
            assert forall|k: int| 0 <= k < sep2.len() implies #[trigger] sep2[k] == ',' || sep2[k] == ' ' by {}
            lemma_fields_from_written(pre2, sep2, rp, rq, acc.push((name, value)));
            assert(pairs[0] == (name, value));
            assert(acc.push((name, value)) + rp =~= acc + pairs);
        }
    }
}

/// What a client writes is what the Digest parser reads: fields written as
/// `name="value"` or `name=value`, one after another with a comma and a
/// space between them, parse back to the same names and values in the same
/// order.
pub proof fn lemma_written_fields_parse(pairs: Seq<(Seq<char>, Seq<char>)>, quoted: Seq<bool>)
    requires
        writable_fields(pairs, quoted),
    ensures
        digest_fields(written_fields(pairs, quoted)) == Some(pairs),
{
    let pre = Seq::<u8>::empty();
    let sep = Seq::<char>::empty();
    lemma_fields_from_written(pre, sep, pairs, quoted, Seq::empty());
    assert(sep + written_fields(pairs, quoted) =~= written_fields(pairs, quoted));
    assert(pre + encode_utf8(written_fields(pairs, quoted)) =~= encode_utf8(written_fields(pairs, quoted)));
    assert(Seq::<(Seq<char>, Seq<char>)>::empty() + pairs =~= pairs);
}

/// A client that answers the Digest challenge is let through: the
/// `Authorization` value `Digest ` followed by fields written as a client
/// writes them, which answer the challenge for a configured user, is
/// answered with that user's NTLM identity.
pub proof fn lemma_written_digest_accepted(
    pairs: Seq<(Seq<char>, Seq<char>)>,
    quoted: Seq<bool>,
    method: Seq<char>,
    path: Option<Seq<char>>,
    auth: AuthConfig,
    default_domain: Seq<char>,
    now: u64,
    i: int,
)
    requires
        writable_fields(pairs, quoted),
        answers_as_user(field_map(pairs), method, path, auth, now, i),
    ensures
        authorization_outcome(
            Some(encode_utf8("Digest "@ + written_fields(pairs, quoted))),
            method,
            path,
            auth,
            default_domain,
            now,
        ) == Ok::<CredentialsView, Seq<char>>(user_credentials(auth.users@[i], default_domain)),
{
    lemma_written_fields_parse(pairs, quoted);
    lemma_written_text(pairs, quoted);
    lemma_digest_header_accepted(written_fields(pairs, quoted), pairs, method, path, auth, default_domain, now, i);
}

/// A refused client is answered as unauthorized: status 401, the refusal's
/// message, and the challenges offered at the time of the refusal.
pub proof fn lemma_refusal_answered(
    r: Result<NtlmCredentials, BridgeError>,
    header: Option<Seq<u8>>,
    method: Seq<char>,
    path: Option<Seq<char>>,
    auth: AuthConfig,
    default_domain: Seq<char>,
    now: u64,
)
    requires
        answers_authorization(r, header, method, path, auth, default_domain, now),
        r is Err,
    ensures
        crate::error::error_status(r->Err_0) == 401,
        crate::error::error_kind(r->Err_0) == "unauthorized"@,
        authorization_outcome(header, method, path, auth, default_domain, now) == Err::<CredentialsView, Seq<char>>(
            crate::error::error_message(r->Err_0),
        ),
        crate::error::error_challenges(r->Err_0) == challenges_at(auth, now),
{
}

/// How a user name splits into NTLM domain and user name: a name without a
/// backslash is kept whole, whatever else it holds (such as `@`), with the
/// default domain; a name with one is split at its first backslash, the
/// domain before it and the user name after it.
pub proof fn lemma_ntlm_user_split(user: Seq<char>, default_domain: Seq<char>)
    ensures
        (forall|k: int| 0 <= k < user.len() ==> user[k] != '\\') ==> ntlm_user_parts(user, default_domain) == (
            default_domain,
            user,
        ),
        forall|i: int|
            is_first(user, '\\', i) ==> ntlm_user_parts(user, default_domain) == (
                user.subrange(0, i),
                user.subrange(i + 1, user.len() as int),
            ),
{
    assert forall|i: int| is_first(user, '\\', i) implies ntlm_user_parts(user, default_domain) == (
        user.subrange(0, i),
        user.subrange(i + 1, user.len() as int),
    ) by {
        let j = choose|j: int| is_first(user, '\\', j);
        lemma_first_unique(user, '\\', i, j);
    }
}

/// The NTLM identity of a configured user: the password is the user's; a
/// configured domain is taken as it is, with the configured NTLM user name
/// verbatim, or the user name where there is none; without a configured
/// domain, an NTLM user name (or user name) free of backslashes is kept
/// whole with the default domain.
pub proof fn lemma_user_ntlm_identity(user: UserConfig, default_domain: Seq<char>)
    ensures
        user_credentials(user, default_domain).password == user.password@,
        user.domain matches Some(d) ==> user_credentials(user, default_domain).domain == d@,
        user.ntlm_username matches Some(n) ==> (user.domain is Some ==> user_credentials(user, default_domain).username
            == n@),
        (user.ntlm_username is None && user.domain is Some) ==> user_credentials(user, default_domain).username
            == user.username@,
        user.ntlm_username matches Some(n) ==> ((user.domain is None && forall|k: int|
            0 <= k < n@.len() ==> n@[k] != '\\') ==> (user_credentials(user, default_domain).username == n@
            && user_credentials(user, default_domain).domain == default_domain)),
        (user.ntlm_username is None && user.domain is None && forall|k: int|
            0 <= k < user.username@.len() ==> user.username@[k] != '\\') ==> (user_credentials(
            user,
            default_domain,
        ).username == user.username@ && user_credentials(user, default_domain).domain == default_domain),
{
    match user.ntlm_username {
        Some(n) => lemma_ntlm_user_split(n@, default_domain),
        None => lemma_ntlm_user_split(user.username@, default_domain),
    }
}

} // verus!
