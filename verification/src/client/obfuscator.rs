//! What every obfuscation method takes and what it can fail with.

use vstd::prelude::*;

verus! {

/// `std::io::Error`, carried through.
#[verifier::external_type_specification]
#[verifier::external_body]
pub struct ExIoError(std::io::Error);

/// Error from an obfuscator operation.
#[derive(Debug)]
pub enum ObfuscatorError {
    /// Underlying I/O error.
    Io(std::io::Error),
    /// Connection refused by relay.
    ConnectionRefused,
    /// TLS handshake or verification error.
    Tls(String),
    /// Protocol handshake failed (obfs4 or WebSocket upgrade).
    Handshake(String),
    /// Probe timed out before first byte.
    Timeout,
    /// Probe was cancelled by the orchestrator.
    Cancelled,
    /// TLS alert 40 / handshake_failure: method blocked by DPI.
    FingerprintBlocked,
    /// Non-101 response on WebSocket upgrade: transparent proxy interception.
    WebTunnelDecoyResponse,
    /// Certificate expired, pin mismatch, or verification failed.
    CertProblem(String),
    /// Uncategorized error.
    Unknown(String),
}

/// An error, its text character for character.
#[verifier::ext_equal]
pub enum ErrorView {
    Io(std::io::Error),
    ConnectionRefused,
    Tls(Seq<char>),
    Handshake(Seq<char>),
    Timeout,
    Cancelled,
    FingerprintBlocked,
    WebTunnelDecoyResponse,
    CertProblem(Seq<char>),
    Unknown(Seq<char>),
}

impl View for ObfuscatorError {
    type V = ErrorView;

    open spec fn view(&self) -> ErrorView {
        match *self {
            ObfuscatorError::Io(e) => ErrorView::Io(e),
            ObfuscatorError::ConnectionRefused => ErrorView::ConnectionRefused,
            ObfuscatorError::Tls(s) => ErrorView::Tls(s@),
            ObfuscatorError::Handshake(s) => ErrorView::Handshake(s@),
            ObfuscatorError::Timeout => ErrorView::Timeout,
            ObfuscatorError::Cancelled => ErrorView::Cancelled,
            ObfuscatorError::FingerprintBlocked => ErrorView::FingerprintBlocked,
            ObfuscatorError::WebTunnelDecoyResponse => ErrorView::WebTunnelDecoyResponse,
            ObfuscatorError::CertProblem(s) => ErrorView::CertProblem(s@),
            ObfuscatorError::Unknown(s) => ErrorView::Unknown(s@),
        }
    }
}

/// Information passed to an obfuscator to start a probe.
#[derive(Clone)]
pub struct ProbeRequest {
    /// Relay address (e.g. "relay.example.com:443").
    pub relay_addr: String,
    /// Bridge/cert bundle string (e.g. "cert=<base64> iat-mode=0").
    pub bundle: String,
    /// TLS SNI hostname (for TLS-wrapped modes). Empty = no SNI.
    pub tls_sni: String,
    /// SPKI hex pin (for TLS pinning). Empty = no pinning.
    pub spki_hex: String,
    /// WebTunnel: HTTP Host header. May differ from `tls_sni` for CDN fronting.
    pub host_header: String,
    /// WebTunnel: WebSocket base path.
    pub wt_base_path: String,
    /// VeilFront: base64-encoded 65-byte ticket blob.
    /// Empty string = no ticket (probe will fail, as expected without auth).
    pub veil_front_ticket_b64: String,
}

impl Default for ProbeRequest {
    fn default() -> (r: Self)
        ensures
            r.relay_addr@.len() == 0,
            r.bundle@.len() == 0,
            r.tls_sni@.len() == 0,
            r.spki_hex@.len() == 0,
            r.host_header@.len() == 0,
            r.wt_base_path@.len() == 0,
            r.veil_front_ticket_b64@.len() == 0,
    {
        ProbeRequest {
            relay_addr: String::new(),
            bundle: String::new(),
            tls_sni: String::new(),
            spki_hex: String::new(),
            host_header: String::new(),
            wt_base_path: String::new(),
            veil_front_ticket_b64: String::new(),
        }
    }
}

}
