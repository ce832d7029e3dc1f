# ntlm-bridge

An HTTP Basic/Digest-to-NTLM bridge. Clients authenticate to the bridge with
HTTP Basic or Digest; the bridge performs an NTLMv2 handshake with the
upstream service on their behalf and passes the upstream's answer back.

The logic of the bridge is a Verus library under `src/`, proved against its
contracts:

- `auth` — reading `Authorization` headers (Basic and Digest), the Digest
  field parser, stateless time-bounded Digest nonces, and the challenges
  offered to unauthenticated clients;
- `ntlm` — the NTLM payload of `WWW-Authenticate`, the Negotiate and
  Authenticate headers of the handshake;
- `proxy` — the upstream URL, which headers are forwarded, how the
  upstream's answers to each leg are judged, and the step function that
  drives a request through the handshake;
- `error` — error messages and the HTTP answer to each error;
- `config` — settings, defaults, validation, command-line overrides, and
  decoding of configuration files (UTF-8, UTF-8/UTF-16 with byte order mark);
- `server`, `service` — server state, and the Windows service's decisions;
- `text`, `crypto` — character helpers and the outside primitives (HMAC,
  MD5, Base64, constant-time comparison, the clock).

`app/` holds the program around it: command line, configuration files, the
axum server, the reqwest client legs of the handshake, and the Windows
service plumbing.
