//! The errors a forwarded request can end in, their messages, and the HTTP
//! response each is answered with.
use vstd::prelude::*;
use vstd::string::*;
use vstd::utf8::*;

use crate::auth;

verus! {

/// Why a request could not be forwarded.
#[derive(Debug)]
pub enum BridgeError {
    /// The client did not authenticate; `challenges` are the
    /// `WWW-Authenticate` values to answer with.
    Unauthorized { message: String, challenges: Vec<String> },
    BadUpstreamUrl(String),
    UpstreamAuthFailed,
    MissingNtlmChallenge,
    Upstream(String),
    Ntlm(String),
    Internal(String),
}

/// The message an error displays.
pub open spec fn error_message(e: BridgeError) -> Seq<char> {
    match e {
        BridgeError::Unauthorized { message, .. } => message@,
        BridgeError::BadUpstreamUrl(s) => "invalid upstream URL: "@ + s@,
        BridgeError::UpstreamAuthFailed => "upstream authentication failed"@,
        BridgeError::MissingNtlmChallenge => "upstream returned no NTLM challenge"@,
        BridgeError::Upstream(s) => "upstream error: "@ + s@,
        BridgeError::Ntlm(s) => "NTLM error: "@ + s@,
        BridgeError::Internal(s) => "internal error: "@ + s@,
    }
}

fn prefixed(prefix: &str, s: &String) -> (r: String)
    ensures
        r@ == prefix@ + s@,
{
    let mut r = String::from_str(prefix);
    r.append(s.as_str());
    r
}

impl BridgeError {
    /// The message this error displays.
    pub fn message(&self) -> (m: String)
        ensures
            m@ == error_message(*self),
    {
        match self {
            BridgeError::Unauthorized { message, .. } => message.clone(),
            BridgeError::BadUpstreamUrl(s) => prefixed("invalid upstream URL: ", s),
            BridgeError::UpstreamAuthFailed => String::from_str("upstream authentication failed"),
            BridgeError::MissingNtlmChallenge => String::from_str("upstream returned no NTLM challenge"),
            BridgeError::Upstream(s) => prefixed("upstream error: ", s),
            BridgeError::Ntlm(s) => prefixed("NTLM error: ", s),
            BridgeError::Internal(s) => prefixed("internal error: ", s),
        }
    }
}

/// The HTTP status an error is answered with.
pub open spec fn error_status(e: BridgeError) -> u16 {
    match e {
        BridgeError::Unauthorized { .. } | BridgeError::UpstreamAuthFailed => 401,
        BridgeError::Internal(_) => 500,
        _ => 502,
    }
}

/// The `error` field of the JSON body an error is answered with.
pub open spec fn error_kind(e: BridgeError) -> Seq<char> {
    match e {
        BridgeError::Unauthorized { .. } | BridgeError::UpstreamAuthFailed => "unauthorized"@,
        BridgeError::Internal(_) => "internal"@,
        _ => "bad_gateway"@,
    }
}

/// The challenges an error offers: those of a refused client, the Basic
/// challenge of the default realm where the upstream refused the
/// credentials, none otherwise.
pub open spec fn error_challenges(e: BridgeError) -> Seq<Seq<char>> {
    match e {
        BridgeError::Unauthorized { challenges, .. } => auth::strings_view(challenges@),
        BridgeError::UpstreamAuthFailed => seq!["Basic realm=\"ntlm-bridge\""@],
        _ => Seq::empty(),
    }
}

/// A string an HTTP header value can hold: each of its bytes is a tab, or
/// at least 32 and not 127 (what `HeaderValue::from_str` accepts).
pub open spec fn is_header_value(s: Seq<char>) -> bool {
    forall|i: int| 0 <= i < encode_utf8(s).len() ==> {
        let b = #[trigger] encode_utf8(s)[i];
        (b >= 32 && b != 127) || b == 9
    }
}

/// The strings of `s` that header values can hold, in order.
pub open spec fn header_values(s: Seq<Seq<char>>) -> Seq<Seq<char>>
    decreases s.len(),
{
    if s.len() == 0 {
        Seq::empty()
    } else {
        header_values(s.drop_last()) + (if is_header_value(s.last()) {
            seq![s.last()]
        } else {
            Seq::empty()
        })
    }
}

/// What an error is answered with: the status, a JSON body of the `error`
/// kind and the message, and the `WWW-Authenticate` values to send.
pub struct ErrorResponse {
    pub status: u16,
    pub kind: String,
    pub message: String,
    pub www_authenticate: Vec<String>,
}

/// Whether `s` can be an HTTP header value.
pub fn header_value_ok(s: &str) -> (r: bool)
    ensures
        r == is_header_value(s@),
{
    let b = s.as_bytes();
    let mut i: usize = 0;
    while i < b.len()
        invariant
            b@ == encode_utf8(s@),
            i <= b@.len(),
            forall|k: int| 0 <= k < i ==> {
                let x = #[trigger] b@[k];
                (x >= 32 && x != 127) || x == 9
            },
        decreases b.len() - i,
    {
        let x = b[i];
        if !((x >= 32 && x != 127) || x == 9) {
            return false;
        }
        i = i + 1;
    }
    true
}

fn keep_header_values(v: &Vec<String>) -> (r: Vec<String>)
    ensures
        auth::strings_view(r@) == header_values(auth::strings_view(v@)),
{
    let mut out: Vec<String> = Vec::new();
    let mut i: usize = 0;
    while i < v.len()
        invariant
            i <= v@.len(),
            auth::strings_view(out@) == header_values(auth::strings_view(v@.subrange(0, i as int))),
        decreases v.len() - i,
    {
        let ghost before = out@;
        assert(auth::strings_view(v@.subrange(0, i + 1)).drop_last() =~= auth::strings_view(v@.subrange(0, i as int)));
        if header_value_ok(v[i].as_str()) {
            out.push(v[i].clone());
            assert(auth::strings_view(out@) =~= auth::strings_view(before).push(v@[i as int]@));
        }
        i = i + 1;
    }
    assert(v@.subrange(0, v@.len() as int) =~= v@);
    out
}

impl BridgeError {
    /// The HTTP answer to this error.
    pub fn to_response(&self) -> (r: ErrorResponse)
        ensures
            r.status == error_status(*self),
            r.kind@ == error_kind(*self),
            r.message@ == error_message(*self),
            auth::strings_view(r.www_authenticate@) == header_values(error_challenges(*self)),
    {
        let (status, kind): (u16, &str) = match self {
            BridgeError::Unauthorized { .. } | BridgeError::UpstreamAuthFailed => (401, "unauthorized"),
            BridgeError::Internal(_) => (500, "internal"),
            _ => (502, "bad_gateway"),
        };
        let challenges: Vec<String> = match self {
            BridgeError::Unauthorized { challenges, .. } => keep_header_values(challenges),
            BridgeError::UpstreamAuthFailed => {
                let mut v: Vec<String> = Vec::new();
                v.push(String::from_str("Basic realm=\"ntlm-bridge\""));
                assert(auth::strings_view(v@) =~= seq!["Basic realm=\"ntlm-bridge\""@]);
                keep_header_values(&v)
            },
            _ => {
                let v: Vec<String> = Vec::new();
                assert(auth::strings_view(v@) =~= Seq::<Seq<char>>::empty());
                v
            },
        };
        ErrorResponse { status, kind: String::from_str(kind), message: self.message(), www_authenticate: challenges }
    }
}

} // verus!
