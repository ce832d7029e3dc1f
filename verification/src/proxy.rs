//! What the proxy decides about a forwarded request: the upstream URL, which
//! headers travel on, and how the upstream's answers to each leg of the NTLM
//! handshake are judged.
use vstd::prelude::*;
use vstd::string::*;
use vstd::utf8::*;

use crate::auth;
use crate::auth::NtlmCredentials;
use crate::config;
use crate::config::UpstreamConfig;
use crate::error::BridgeError;
use crate::ntlm;
use crate::text;
use crate::text::{chars_of, push_range, push_str, string_from_chars};

verus! {

broadcast use vstd::utf8::encode_utf8_decode_utf8, vstd::utf8::encode_utf8_valid_utf8;

/// Forwards authenticated requests to the configured upstream.
#[derive(Clone)]
pub struct ProxyClient {
    config: UpstreamConfig,
}

impl ProxyClient {
    /// The upstream settings this client forwards with.
    pub closed spec fn upstream(&self) -> UpstreamConfig {
        self.config
    }

    pub fn new(config: UpstreamConfig) -> (p: Self)
        ensures
            p.upstream() == config,
    {
        ProxyClient { config }
    }

    /// The upstream settings.
    pub fn config(&self) -> (c: &UpstreamConfig)
        ensures
            *c == self.upstream(),
    {
        &self.config
    }
}

/// `s` without its trailing slashes.
pub open spec fn trim_end_slashes(s: Seq<char>) -> Seq<char>
    decreases s.len(),
{
    if s.len() > 0 && s.last() == '/' {
        trim_end_slashes(s.drop_last())
    } else {
        s
    }
}

/// The upstream URL for a request: the base URL without trailing slashes,
/// then the request's path and query (`/` where it has none), with a
/// leading slash added where it lacks one.
pub open spec fn target_text(base_url: Seq<char>, path: Option<Seq<char>>) -> Seq<char> {
    let p = match path {
        Some(p) => p,
        None => "/"@,
    };
    let p2 = if p.len() > 0 && p[0] == '/' {
        p
    } else {
        "/"@ + p
    };
    trim_end_slashes(base_url) + p2
}

/// The upstream URL for a request, where it parses as a URL.
pub fn target_url(base_url: &str, path_and_query: Option<&str>) -> (r: Result<String, BridgeError>)
    ensures
        match r {
            Ok(u) => u@ == target_text(base_url@, auth::opt_str_view(path_and_query)) && config::url_parse_error(u@) == None::<Seq<char>>,
            Err(BridgeError::BadUpstreamUrl(m)) => {
                let t = target_text(base_url@, auth::opt_str_view(path_and_query));
                config::url_parse_error(t) matches Some(e) && m@ == t + ": "@ + e
            },
            Err(_) => false,
        },
{
    let base = chars_of(base_url);
    let mut end = base.len();
    assert(base@.subrange(0, end as int) =~= base@);
    while end > 0 && base[end - 1] == '/'
        invariant
            base@ == base_url@,
            end <= base@.len(),
            trim_end_slashes(base_url@) == trim_end_slashes(base@.subrange(0, end as int)),
        decreases end,
    {
        assert(base@.subrange(0, end as int).drop_last() =~= base@.subrange(0, end - 1));
        end = end - 1;
    }
    let path: &str = match path_and_query {
        Some(p) => p,
        None => "/",
    };
    let pv = chars_of(path);
    let mut url: Vec<char> = Vec::new();
    push_range(&mut url, base.as_slice(), 0, end);
    if !(pv.len() > 0 && pv[0] == '/') {
        url.push('/');
    }
    push_str(&mut url, path);
    proof {
        assert(base@.subrange(0, base@.len() as int) =~= base@);
        assert(base@.subrange(0, end as int) == trim_end_slashes(base@.subrange(0, end as int)));
        reveal_strlit("/");
    }
    assert(url@ =~= target_text(base_url@, auth::opt_str_view(path_and_query)));
    let url = string_from_chars(url.as_slice());
    match config::url_parse_check(url.as_str()) {
        Some(e) => {
            let mut msg = url.clone();
            msg.append(": ");
            msg.append(e.as_str());
            Err(BridgeError::BadUpstreamUrl(msg))
        },
        None => Ok(url),
    }
}

/// A hop-by-hop header, by name (ASCII case ignored): it concerns one
/// connection and is not forwarded.
pub open spec fn is_hop_by_hop_name(name: Seq<char>) -> bool {
    let n = text::ascii_lowercase(name);
    ||| n == "connection"@
    ||| n == "keep-alive"@
    ||| n == "proxy-authenticate"@
    ||| n == "proxy-authorization"@
    ||| n == "te"@
    ||| n == "trailer"@
    ||| n == "transfer-encoding"@
    ||| n == "upgrade"@
}

/// Whether the header `name` is hop-by-hop.
pub fn is_hop_by_hop(name: &str) -> (r: bool)
    ensures
        r == is_hop_by_hop_name(name@),
{
    let v = chars_of(name);
    let l = string_from_chars(text::to_ascii_lowercase(v.as_slice()).as_slice());
    let n = l.as_str();
    text::str_eq(n, "connection") || text::str_eq(n, "keep-alive") || text::str_eq(n, "proxy-authenticate")
        || text::str_eq(n, "proxy-authorization") || text::str_eq(n, "te") || text::str_eq(n, "trailer")
        || text::str_eq(n, "transfer-encoding") || text::str_eq(n, "upgrade")
}

/// A request header (by its lower-case name) that is not forwarded: the
/// client's credentials, host and length always, the body's type and
/// `Expect` on the bodiless Negotiate leg, and hop-by-hop headers.
pub open spec fn skips_request_header(name: Seq<char>, negotiating: bool) -> bool {
    ||| name == "authorization"@
    ||| name == "host"@
    ||| name == "content-length"@
    ||| (negotiating && (name == "content-type"@ || name == "expect"@))
    ||| is_hop_by_hop_name(name)
}

/// Whether the request header `name` (as an HTTP header name, lower-case)
/// stays behind.
pub fn should_skip_request_header(name: &str, negotiating: bool) -> (r: bool)
    ensures
        r == skips_request_header(name@, negotiating),
{
    if text::str_eq(name, "authorization") || text::str_eq(name, "host") || text::str_eq(name, "content-length") {
        return true;
    }
    if negotiating && (text::str_eq(name, "content-type") || text::str_eq(name, "expect")) {
        return true;
    }
    is_hop_by_hop(name)
}

/// A `WWW-Authenticate` value that is readable text carrying an NTLM payload.
pub open spec fn has_ntlm_challenge(value: Seq<u8>) -> bool {
    &&& forall|i: int| 0 <= i < value.len() ==> auth::is_visible_ascii(#[trigger] value[i])
    &&& ntlm::ntlm_payload(text::latin1_chars(value)) is Some
}

/// The first of the upstream's `WWW-Authenticate` values that carries an
/// NTLM challenge.
pub fn find_www_authenticate(values: &Vec<Vec<u8>>) -> (r: Option<&str>)
    ensures
        match r {
            Some(s) => exists|i: int|
                0 <= i < values@.len() && has_ntlm_challenge(#[trigger] values@[i]@) && s@ == text::latin1_chars(values@[i]@)
                    && forall|k: int| 0 <= k < i ==> !has_ntlm_challenge(#[trigger] values@[k]@),
            None => forall|k: int| 0 <= k < values@.len() ==> !has_ntlm_challenge(#[trigger] values@[k]@),
        },
{
    let mut i: usize = 0;
    while i < values.len()
        invariant
            i <= values@.len(),
            forall|k: int| 0 <= k < i ==> !has_ntlm_challenge(#[trigger] values@[k]@),
        decreases values.len() - i,
    {
        match auth::header_value_str(values[i].as_slice()) {
            Some(s) => {
                if ntlm::extract_ntlm_payload(s).is_some() {
                    return Some(s);
                }
            },
            None => {},
        }
        i = i + 1;
    }
    None
}

/// The display text of an HTTP status: the code and its reason phrase.
pub uninterp spec fn status_text(code: u16) -> Seq<char>;

/// The display text of an HTTP status code.
///
/// Trusted: calls `StatusCode::from_u16` (which accepts 100 to 999, the
/// codes `requires` admits) and displays the status. The contract claims
/// the result is the named text of `code`.
#[verifier::external_body]
fn status_display(code: u16) -> (s: String)
    requires
        100 <= code <= 999,
    ensures
        s@ == status_text(code),
{
    reqwest::StatusCode::from_u16(code).expect("a status code from 100 to 999").to_string()
}

/// How the Negotiate leg's answer is judged: it must be `401` with an NTLM
/// challenge, which is then what the handshake goes on with.
pub fn check_negotiate_response(status: u16, www_authenticate: &Vec<Vec<u8>>) -> (r: Result<String, BridgeError>)
    requires
        100 <= status <= 999,
    ensures
        status != 401 ==> (r matches Err(BridgeError::Upstream(m)) && m@ == "expected NTLM challenge, got "@ + status_text(status)),
        status == 401 ==> match r {
            Ok(c) => exists|i: int|
                0 <= i < www_authenticate@.len() && has_ntlm_challenge(#[trigger] www_authenticate@[i]@) && c@
                    == text::latin1_chars(www_authenticate@[i]@) && forall|k: int|
                    0 <= k < i ==> !has_ntlm_challenge(#[trigger] www_authenticate@[k]@),
            Err(BridgeError::MissingNtlmChallenge) => forall|k: int|
                0 <= k < www_authenticate@.len() ==> !has_ntlm_challenge(#[trigger] www_authenticate@[k]@),
            Err(_) => false,
        },
{
    if status != 401 {
        let mut msg = String::from_str("expected NTLM challenge, got ");
        msg.append(status_display(status).as_str());
        return Err(BridgeError::Upstream(msg));
    }
    match find_www_authenticate(www_authenticate) {
        Some(c) => Ok(String::from_str(c)),
        None => Err(BridgeError::MissingNtlmChallenge),
    }
}

/// How the Authenticate leg's answer is judged: `401` means the upstream
/// refused the credentials; anything else is passed back to the client.
pub fn check_authenticated_status(status: u16) -> (r: Result<(), BridgeError>)
    ensures
        status == 401 ==> (r matches Err(BridgeError::UpstreamAuthFailed)),
        status != 401 ==> r is Ok,
{
    if status == 401 {
        return Err(BridgeError::UpstreamAuthFailed);
    }
    Ok(())
}


/// Where forwarding an authenticated request through the NTLM handshake
/// stands.
pub enum ForwardState {
    /// Nothing has been sent upstream yet.
    Start,
    /// The Negotiate leg was sent for these credentials.
    Negotiating { creds: NtlmCredentials },
    /// The Authenticate leg was sent.
    Authenticating,
    /// Nothing more is to be done.
    Done,
}

/// What happened since the last step.
pub enum ForwardEvent {
    /// The client was authenticated with these credentials for a request
    /// to this path and query.
    Authenticated { creds: NtlmCredentials, path_and_query: Option<String> },
    /// The upstream answered the Negotiate leg with this status and these
    /// `WWW-Authenticate` values.
    NegotiateAnswer { status: u16, www_authenticate: Vec<Vec<u8>> },
    /// The upstream answered the Authenticate leg with this status.
    AuthenticateAnswer { status: u16 },
}

/// What is to be done next.
pub enum ForwardAction {
    /// Send the Negotiate leg to `url` with this `Authorization` value.
    SendNegotiate { url: String, authorization: String },
    /// Send the Authenticate leg with this `Authorization` value.
    SendAuthenticate { authorization: String },
    /// Pass the upstream's answer back to the client.
    PassBack,
    /// Answer the client with this error.
    Fail(BridgeError),
    /// The credentials, the workstation or the challenge are too long for an
    /// NTLM message.
    TooLong,
}

/// The view of an optional string.
pub open spec fn opt_string_view(o: Option<String>) -> Option<Seq<char>> {
    match o {
        Some(s) => Some(s@),
        None => None,
    }
}

/// Whether `values[i]` is the first of `values` with an NTLM challenge.
pub open spec fn is_first_challenge(values: Seq<Vec<u8>>, i: int) -> bool {
    &&& 0 <= i < values.len()
    &&& has_ntlm_challenge(values[i]@)
    &&& forall|k: int| 0 <= k < i ==> !has_ntlm_challenge(#[trigger] values[k]@)
}

/// Whether `next` and `action` answer the upstream's challenge `c`: the
/// Authenticate leg with the value answering it, the error reading it gave,
/// or too long where the Authenticate message cannot be built.
pub open spec fn answers_with_challenge(
    creds: NtlmCredentials,
    workstation: Seq<char>,
    c: Seq<char>,
    next: ForwardState,
    action: ForwardAction,
) -> bool {
    match action {
        ForwardAction::SendAuthenticate { authorization } => next is Authenticating && ntlm::answers_challenge(
            Ok(authorization),
            c,
            creds@,
            workstation,
        ),
        ForwardAction::Fail(e) => next is Done && ntlm::answers_challenge(Err(e), c, creds@, workstation),
        ForwardAction::TooLong => next is Done && !ntlm::handshake_fits(c, creds@, workstation),
        _ => false,
    }
}

/// One step of forwarding through the handshake with the upstream `up`:
/// after authentication, the Negotiate leg to the target URL (or its URL
/// error, or too long); after the Negotiate answer, the Authenticate leg
/// answering the first NTLM challenge (or the upstream's error); after the
/// Authenticate answer, the answer passed back unless the upstream refused
/// the credentials; any other event is an internal error.
pub open spec fn is_forward_step(
    up: UpstreamConfig,
    state: ForwardState,
    event: ForwardEvent,
    next: ForwardState,
    action: ForwardAction,
) -> bool {
    match (state, event) {
        (ForwardState::Start, ForwardEvent::Authenticated { creds, path_and_query }) => {
            let t = target_text(up.base_url@, opt_string_view(path_and_query));
            match config::url_parse_error(t) {
                Some(e) => next is Done && (action matches ForwardAction::Fail(BridgeError::BadUpstreamUrl(m)) && m@ == t
                    + ": "@ + e),
                None => if ntlm::fits_ntlm_field(up.workstation@) && ntlm::fits_ntlm_field(creds.domain@) {
                    &&& next == ForwardState::Negotiating { creds }
                    &&& action matches ForwardAction::SendNegotiate { url, authorization }
                    &&& url@ == t
                    &&& authorization@ == ntlm::negotiate_value(up.workstation@, creds.domain@)
                } else {
                    next is Done && action is TooLong
                },
            }
        },
        (ForwardState::Negotiating { creds }, ForwardEvent::NegotiateAnswer { status, www_authenticate }) => {
            if status != 401 {
                next is Done && (action matches ForwardAction::Fail(BridgeError::Upstream(m)) && m@
                    == "expected NTLM challenge, got "@ + status_text(status))
            } else if forall|k: int| 0 <= k < www_authenticate@.len() ==> !has_ntlm_challenge(#[trigger] www_authenticate@[k]@) {
                next is Done && action matches ForwardAction::Fail(BridgeError::MissingNtlmChallenge)
            } else {
                exists|i: int|
                    #![trigger www_authenticate@[i]]
                    is_first_challenge(www_authenticate@, i) && answers_with_challenge(
                        creds,
                        up.workstation@,
                        text::latin1_chars(www_authenticate@[i]@),
                        next,
                        action,
                    )
            }
        },
        (ForwardState::Authenticating, ForwardEvent::AuthenticateAnswer { status }) => if status == 401 {
            next is Done && action matches ForwardAction::Fail(BridgeError::UpstreamAuthFailed)
        } else {
            next is Done && action is PassBack
        },
        _ => next is Done && action matches ForwardAction::Fail(BridgeError::Internal(_)),
    }
}

impl ProxyClient {
    /// One step of forwarding a request through the NTLM handshake: the
    /// network legs are sent by the caller, which hands back their answers.
    pub fn forward_step(&self, state: ForwardState, event: ForwardEvent) -> (r: (ForwardState, ForwardAction))
        requires
            event matches ForwardEvent::NegotiateAnswer { status, .. } ==> 100 <= status <= 999,
        ensures
            is_forward_step(self.upstream(), state, event, r.0, r.1),
    {
        match (state, event) {
            (ForwardState::Start, ForwardEvent::Authenticated { creds, path_and_query }) => {
                let path: Option<&str> = match &path_and_query {
                    Some(p) => Some(p.as_str()),
                    None => None,
                };
                let url = match target_url(&self.config.base_url, path) {
                    Ok(u) => u,
                    Err(e) => return (ForwardState::Done, ForwardAction::Fail(e)),
                };
                if !ntlm::ntlm_field_fits(&self.config.workstation) || !ntlm::ntlm_field_fits(&creds.domain) {
                    return (ForwardState::Done, ForwardAction::TooLong);
                }
                let authorization = match ntlm::negotiate_header(&self.config.workstation, &creds.domain) {
                    Ok(v) => v,
                    Err(e) => return (ForwardState::Done, ForwardAction::Fail(e)),
                };
                (ForwardState::Negotiating { creds }, ForwardAction::SendNegotiate { url, authorization })
            },
            (ForwardState::Negotiating { creds }, ForwardEvent::NegotiateAnswer { status, www_authenticate }) => {
                let challenge = match check_negotiate_response(status, &www_authenticate) {
                    Ok(c) => c,
                    Err(e) => return (ForwardState::Done, ForwardAction::Fail(e)),
                };
                match ntlm::authenticate_header_checked(&challenge, &creds, &self.config.workstation) {
                    Some(Ok(authorization)) => (ForwardState::Authenticating, ForwardAction::SendAuthenticate { authorization }),
                    Some(Err(e)) => (ForwardState::Done, ForwardAction::Fail(e)),
                    None => (ForwardState::Done, ForwardAction::TooLong),
                }
            },
            (ForwardState::Authenticating, ForwardEvent::AuthenticateAnswer { status }) => {
                match check_authenticated_status(status) {
                    Ok(()) => (ForwardState::Done, ForwardAction::PassBack),
                    Err(e) => (ForwardState::Done, ForwardAction::Fail(e)),
                }
            },
            _ => (ForwardState::Done, ForwardAction::Fail(BridgeError::Internal(String::from_str("unexpected step in the NTLM handshake")))),
        }
    }
}

/// The client's credentials never travel upstream: its `Authorization`
/// header stays behind on both legs of the handshake.
pub proof fn lemma_credentials_stay_behind(negotiating: bool)
    ensures
        skips_request_header("authorization"@, negotiating),
{
}

/// No hop-by-hop header travels upstream, whatever the case of its name.
pub proof fn lemma_hop_by_hop_stays_behind(name: Seq<char>, negotiating: bool)
    requires
        is_hop_by_hop_name(name),
    ensures
        skips_request_header(name, negotiating),
{
}

/// The request's path and query reach the upstream unchanged, behind the
/// base URL without its trailing slashes.
pub proof fn lemma_path_and_query_kept(base_url: Seq<char>, path: Seq<char>)
    requires
        path.len() > 0,
        path[0] == '/',
    ensures
        target_text(base_url, Some(path)) == trim_end_slashes(base_url) + path,
        target_text(base_url, Some(path)).subrange(
            trim_end_slashes(base_url).len() as int,
            target_text(base_url, Some(path)).len() as int,
        ) == path,
{
    let t = target_text(base_url, Some(path));
    assert(t.subrange(trim_end_slashes(base_url).len() as int, t.len() as int) =~= path);
}

/// On the Authenticate leg only a 401 means that the upstream refused the
/// credentials; every other answer, whatever its status, is passed back to
/// the client; either way the handshake is over.
pub proof fn lemma_authenticate_answer_passed_back(
    up: UpstreamConfig,
    status: u16,
    next: ForwardState,
    action: ForwardAction,
)
    requires
        is_forward_step(up, ForwardState::Authenticating, ForwardEvent::AuthenticateAnswer { status }, next, action),
    ensures
        next is Done,
        status == 401 ==> (action matches ForwardAction::Fail(e) && e is UpstreamAuthFailed),
        status != 401 ==> action is PassBack,
{
}

/// The hop-by-hop headers are exactly `connection`, `keep-alive`,
/// `proxy-authenticate`, `proxy-authorization`, `te`, `trailer`,
/// `transfer-encoding` and `upgrade`, ASCII case ignored (so they are
/// dropped from the upstream's answer); each of them, by its lower-case
/// name, stays behind on both legs.
pub proof fn lemma_hop_by_hop_names(name: Seq<char>, negotiating: bool)
    ensures
        is_hop_by_hop_name(name) <==> seq![
            "connection"@,
            "keep-alive"@,
            "proxy-authenticate"@,
            "proxy-authorization"@,
            "te"@,
            "trailer"@,
            "transfer-encoding"@,
            "upgrade"@,
        ].contains(text::ascii_lowercase(name)),
        (text::ascii_lowercase(name) == name && seq![
            "connection"@,
            "keep-alive"@,
            "proxy-authenticate"@,
            "proxy-authorization"@,
            "te"@,
            "trailer"@,
            "transfer-encoding"@,
            "upgrade"@,
        ].contains(name)) ==> skips_request_header(name, negotiating),
{
    let names = seq![
        "connection"@,
        "keep-alive"@,
        "proxy-authenticate"@,
        "proxy-authorization"@,
        "te"@,
        "trailer"@,
        "transfer-encoding"@,
        "upgrade"@,
    ];
    let n = text::ascii_lowercase(name);
    if is_hop_by_hop_name(name) {
        if n == names[0] {
        } else if n == names[1] {
        } else if n == names[2] {
        } else if n == names[3] {
        } else if n == names[4] {
        } else if n == names[5] {
        } else if n == names[6] {
        } else {
            assert(n == names[7]);
        }
    }
}

} // verus!
