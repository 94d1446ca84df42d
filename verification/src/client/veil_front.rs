//! The decisions of the veil-front probe.
//!
//! Probe flow:
//! 1. TCP connect to relay
//! 2. TLS 1.3 handshake (browser profile + SPKI pin)
//! 3. Derive TLS exporter keying material
//! 4. Parse ticket from bundle, build AuthRecord
//! 5. Send AUTH frame as first application data
//! 6. Read first frame back: if DATA, tunnel is live; if not, probe failed

use crate::client::method::MethodId;
use crate::client::obfuscator::ObfuscatorError;
use crate::encoding::{base64_decode, contains, decimal, hex_encode, join};
use crate::protocol::auth::AuthRecord;
use crate::protocol::frame::{Frame, FrameKind};
use crate::protocol::ticket::{ticket_from_bytes, Ticket};
use vstd::prelude::*;

verus! {

/// VeilFront probe adapter.
pub struct VeilFrontObfuscator;

impl VeilFrontObfuscator {
    /// Create a new VeilFrontObfuscator.
    pub fn new() -> (r: Self)
        ensures
            r == VeilFrontObfuscator,
    {
        VeilFrontObfuscator
    }

    /// Which method this implements.
    pub fn method_id(&self) -> (r: MethodId)
        ensures
            r == MethodId::VeilFront,
    {
        MethodId::VeilFront
    }
}

impl Default for VeilFrontObfuscator {
    fn default() -> (r: Self)
        ensures
            r == VeilFrontObfuscator,
    {
        VeilFrontObfuscator
    }
}

/// How a connection attempt failed.
pub enum ConnectFailure {
    /// It took too long.
    TimedOut,
    /// The relay refused it.
    Refused,
    /// Any other way.
    Other(std::io::Error),
}

/// The error for a failed connection attempt.
pub fn connect_error(failure: ConnectFailure) -> (r: ObfuscatorError)
    ensures
        r == match failure {
            ConnectFailure::TimedOut => ObfuscatorError::Timeout,
            ConnectFailure::Refused => ObfuscatorError::ConnectionRefused,
            ConnectFailure::Other(e) => ObfuscatorError::Io(e),
        },
{
    match failure {
        ConnectFailure::TimedOut => ObfuscatorError::Timeout,
        ConnectFailure::Refused => ObfuscatorError::ConnectionRefused,
        ConnectFailure::Other(e) => ObfuscatorError::Io(e),
    }
}

/// What a failed TLS handshake is, going by its description: a blocked fingerprint, a certificate
/// problem, or some other failure.
pub open spec fn tls_failure(text: Seq<char>) -> crate::client::obfuscator::ErrorView {
    if (crate::encoding::occurs_in("alert"@, text) && crate::encoding::occurs_in("40"@, text))
        || crate::encoding::occurs_in("handshake_failure"@, text) {
        crate::client::obfuscator::ErrorView::FingerprintBlocked
    } else if crate::encoding::occurs_in("cert"@, text) || crate::encoding::occurs_in(
        "verify"@,
        text,
    ) || crate::encoding::occurs_in("certificate"@, text) {
        crate::client::obfuscator::ErrorView::CertProblem(text)
    } else {
        crate::client::obfuscator::ErrorView::Tls(text)
    }
}

/// Tells a failed TLS handshake by its description.
pub fn classify_tls_error(text: String) -> (r: ObfuscatorError)
    ensures
        r@ == tls_failure(text@),
{
    let s: &str = text.as_str();
    if (contains(s, "alert") && contains(s, "40")) || contains(s, "handshake_failure") {
        ObfuscatorError::FingerprintBlocked
    } else if contains(s, "cert") || contains(s, "verify") || contains(s, "certificate") {
        ObfuscatorError::CertProblem(text)
    } else {
        ObfuscatorError::Tls(text)
    }
}

/// What a bundle's decoded ticket gives.
pub open spec fn ticket_outcome(raw: Result<Seq<u8>, Seq<char>>) -> Result<Seq<u8>, Seq<char>> {
    match raw {
        Err(e) => Err("ticket base64 decode: "@ + e),
        Ok(bytes) => if bytes.len() == crate::protocol::ticket::TICKET_WIRE_LEN {
            Ok(bytes)
        } else {
            Err(
                "invalid ticket: expected 65 bytes, got "@ + crate::encoding::decimal_of(
                    bytes.len(),
                ),
            )
        },
    }
}

/// Whether a parsed ticket, or the failure to parse one, is what was to come out.
pub open spec fn is_outcome(
    r: Result<Ticket, ObfuscatorError>,
    outcome: Result<Seq<u8>, Seq<char>>,
) -> bool {
    match outcome {
        Ok(bytes) => r matches Ok(ticket) && ticket.wire() == bytes,
        Err(e) => r matches Err(x) && x@ == crate::client::obfuscator::ErrorView::Handshake(e),
    }
}

/// Makes a ticket of what base64 decoding gave.
pub fn ticket_from_decoded(raw: Result<Vec<u8>, String>) -> (r: Result<Ticket, ObfuscatorError>)
    ensures
        is_outcome(
            r,
            ticket_outcome(
                match raw {
                    Ok(bytes) => Ok(bytes@),
                    Err(e) => Err(e@),
                },
            ),
        ),
{
    match raw {
        Ok(bytes) => match ticket_from_bytes(bytes.as_slice()) {
            Some(ticket) => Ok(ticket),
            None => Err(
                ObfuscatorError::Handshake(
                    join(
                        "invalid ticket: expected 65 bytes, got ",
                        decimal(bytes.len()).as_str(),
                    ),
                ),
            ),
        },
        Err(e) => Err(ObfuscatorError::Handshake(join("ticket base64 decode: ", e.as_str()))),
    }
}

/// Parse a veil-front ticket from the bundle string: a base64-encoded 65-byte ticket blob.
pub fn parse_ticket(bundle_b64: &str) -> (r: Result<Ticket, ObfuscatorError>)
    ensures
        is_outcome(
            r,
            if bundle_b64@.len() == 0 {
                Err("no veil-front ticket in bundle"@)
            } else {
                ticket_outcome(crate::encoding::base64_of(bundle_b64@))
            },
        ),
{
    if bundle_b64.unicode_len() == 0 {
        return Err(ObfuscatorError::Handshake("no veil-front ticket in bundle".to_owned()));
    }
    ticket_from_decoded(base64_decode(bundle_b64))
}

/// The AUTH frame for a ticket in a session: the payload is the ticket's identifier and its code
/// in that session.
pub fn auth_frame(ticket: &Ticket, exporter: &[u8; 32]) -> (r: Frame)
    ensures
        r.kind == FrameKind::Auth,
        crate::buffers::bytes_in(r.payload) == ticket.ticket_id@
            + crate::protocol::auth::authcode_of(*ticket, exporter@),
        crate::buffers::bytes_in(r.payload).len() == crate::protocol::auth::AUTH_PAYLOAD_LEN,
{
    let auth: AuthRecord = AuthRecord::from_ticket(ticket, exporter.as_slice());
    Frame::auth(auth.to_payload())
}

/// More than this much without a frame is taken for site content.
pub const REPLY_LIMIT: usize = 65536;

/// What decoding the relay's reply gave.
pub enum Reply {
    /// A whole frame of this kind.
    Frame(FrameKind),
    /// The start of a frame.
    Incomplete,
    /// No frame at all, with what is wrong with it.
    Malformed(String),
}

/// A reply, its text character for character.
pub enum ReplyView {
    Frame(FrameKind),
    Incomplete,
    Malformed(Seq<char>),
}

impl View for Reply {
    type V = ReplyView;

    open spec fn view(&self) -> ReplyView {
        match *self {
            Reply::Frame(kind) => ReplyView::Frame(kind),
            Reply::Incomplete => ReplyView::Incomplete,
            Reply::Malformed(e) => ReplyView::Malformed(e@),
        }
    }
}

/// What to do after looking at the reply so far.
pub enum Verdict {
    /// The tunnel is live.
    Live,
    /// Read on, behind what was decoded.
    ReadMore,
    /// The probe failed.
    Failed(ObfuscatorError),
}

/// What to do after looking at the reply so far; a failure with its text.
pub enum VerdictView {
    Live,
    ReadMore,
    Failed(Seq<char>),
}

/// What a reply means once `total_read` bytes were read. A first frame of DATA shows that the relay
/// recognised the auth. Any other means that the probe failed, and so does what is no frame.
pub open spec fn judged(reply: ReplyView, total_read: usize) -> VerdictView {
    match reply {
        ReplyView::Frame(FrameKind::Data) => VerdictView::Live,
        ReplyView::Frame(FrameKind::Chaff) => VerdictView::Failed(
            "relay sent CHAFF frame before DATA"@,
        ),
        ReplyView::Frame(FrameKind::Auth) => VerdictView::Failed("relay echoed AUTH frame"@),
        ReplyView::Frame(FrameKind::Other(byte)) => VerdictView::Failed(
            "unexpected frame type: 0x"@ + crate::encoding::hex_of(seq![byte]),
        ),
        ReplyView::Incomplete => if total_read > REPLY_LIMIT {
            VerdictView::Failed("received >64KB without valid frame (likely routed to site)"@)
        } else {
            VerdictView::ReadMore
        },
        ReplyView::Malformed(e) => VerdictView::Failed(
            "frame decode error (routed to site): "@ + e,
        ),
    }
}

/// Whether a verdict is what was to come out: a failure is a handshake failure with the text.
pub open spec fn is_verdict(r: Verdict, v: VerdictView) -> bool {
    match v {
        VerdictView::Live => r is Live,
        VerdictView::ReadMore => r is ReadMore,
        VerdictView::Failed(text) => r matches Verdict::Failed(e) && e@
            == crate::client::obfuscator::ErrorView::Handshake(text),
    }
}

/// Reads the relay's reply to the AUTH frame, as far as it has come.
#[derive(Debug)]
pub struct ReplyReader {
    total_read: usize,
}

impl ReplyReader {
    /// How many bytes were read in all.
    pub closed spec fn total(&self) -> usize {
        self.total_read
    }

    /// Nothing was read yet.
    pub fn new() -> (r: Self)
        ensures
            r.total() == 0,
    {
        ReplyReader { total_read: 0 }
    }

    /// Takes note of a read of `n` bytes. A read of none means that the relay closed the connection
    /// without sending tunnel data.
    pub fn read(&mut self, n: usize) -> (r: Result<(), ObfuscatorError>)
        ensures
            n > 0 ==> r is Ok,
            n == 0 ==> (r matches Err(e) && e@ == crate::client::obfuscator::ErrorView::Handshake(
                "relay closed connection after auth"@,
            )),
            final(self).total() == if old(self).total() + n > usize::MAX {
                usize::MAX as int
            } else {
                old(self).total() + n
            },
    {
        self.total_read = self.total_read.saturating_add(n);
        if n == 0 {
            Err(ObfuscatorError::Handshake("relay closed connection after auth".to_owned()))
        } else {
            Ok(())
        }
    }

    /// Judges what was decoded from the bytes read so far.
    pub fn judge(&self, reply: Reply) -> (r: Verdict)
        ensures
            is_verdict(r, judged(reply@, self.total())),
    {
        match reply {
            Reply::Frame(FrameKind::Data) => Verdict::Live,
            Reply::Frame(FrameKind::Chaff) => Verdict::Failed(
                ObfuscatorError::Handshake("relay sent CHAFF frame before DATA".to_owned()),
            ),
            Reply::Frame(FrameKind::Auth) => Verdict::Failed(
                ObfuscatorError::Handshake("relay echoed AUTH frame".to_owned()),
            ),
            Reply::Frame(FrameKind::Other(byte)) => {
                let one: [u8; 1] = [byte];
                assert(one@ =~= seq![byte]);
                Verdict::Failed(
                    ObfuscatorError::Handshake(
                        join("unexpected frame type: 0x", hex_encode(one.as_slice()).as_str()),
                    ),
                )
            },
            Reply::Incomplete => {
                if self.total_read > REPLY_LIMIT {
                    Verdict::Failed(
                        ObfuscatorError::Handshake(
                            "received >64KB without valid frame (likely routed to site)".to_owned(),
                        ),
                    )
                } else {
                    Verdict::ReadMore
                }
            },
            Reply::Malformed(e) => Verdict::Failed(
                ObfuscatorError::Handshake(
                    join("frame decode error (routed to site): ", e.as_str()),
                ),
            ),
        }
    }
}

/// A probe is live only if the first frame of the relay's answer is tunnel data, and then at once.
/// Every other first frame, and what is no frame, is a failure: only the start of a frame is waited
/// for.
pub proof fn law_only_tunnel_data_makes_a_probe_live(reply: ReplyView, total_read: usize)
    ensures
        judged(reply, total_read) is Live <==> reply == ReplyView::Frame(FrameKind::Data),
        judged(reply, total_read) is ReadMore ==> reply is Incomplete,
        reply is Frame && reply != ReplyView::Frame(FrameKind::Data) ==> judged(
            reply,
            total_read,
        ) is Failed,
{
}

/// What the probe sends, the relay's gate admits: the AUTH frame for an issued ticket, in the same
/// session and while the ticket is valid, is routed as soon as it is decoded. Its type, length and
/// payload are enough to be looked at, with nothing behind them.
pub proof fn law_the_gate_admits_the_probe(
    frame: Frame,
    ticket: Ticket,
    store: Map<Seq<u8>, Ticket>,
    exporter: Seq<u8>,
    now: u64,
    n: usize,
    closed: bool,
)
    requires
        frame.kind == FrameKind::Auth,
        crate::buffers::bytes_in(frame.payload) == ticket.ticket_id@
            + crate::protocol::auth::authcode_of(ticket, exporter),
        crate::buffers::bytes_in(frame.payload).len() == crate::protocol::auth::AUTH_PAYLOAD_LEN,
        store.contains_key(ticket.ticket_id@),
        store[ticket.ticket_id@] == ticket,
        ticket.valid_at(now),
    ensures
        crate::relay::gate::is_admitted(
            crate::relay::gate::Decoded::Frame(frame),
            store,
            exporter,
            now,
        ),
        crate::relay::gate::next_after_read(n, crate::protocol::auth::AUTH_PAYLOAD_LEN + 2) is Decode,
        crate::relay::gate::next_after_decode(
            crate::relay::gate::Decoded::Frame(frame),
            crate::protocol::auth::AUTH_PAYLOAD_LEN + 2,
            closed,
        ) is Route,
{
    let payload = crate::buffers::bytes_in(frame.payload);
    assert(payload.take(16) =~= ticket.ticket_id@);
    assert(payload.skip(16) =~= crate::protocol::auth::authcode_of(ticket, exporter));
}

/// How long an incomplete frame is waited for: up to 65536 bytes in all. Beyond that the probe has
/// failed.
pub proof fn law_an_incomplete_reply_is_waited_for(total_read: usize)
    ensures
        total_read <= 65536 ==> judged(ReplyView::Incomplete, total_read) is ReadMore,
        total_read > 65536 ==> judged(ReplyView::Incomplete, total_read) is Failed,
{
}

/// How a failed handshake is told by its description. The words of a blocked fingerprint come
/// first, whatever else the text says; then those of a certificate problem; the text is kept for
/// both of the other failures.
pub proof fn law_a_blocked_fingerprint_is_told_first(before: Seq<char>, behind: Seq<char>)
    ensures
        tls_failure(before + "handshake_failure"@ + behind)
            == crate::client::obfuscator::ErrorView::FingerprintBlocked,
        crate::encoding::occurs_in("alert"@, before) && crate::encoding::occurs_in("40"@, before)
            ==> tls_failure(before) == crate::client::obfuscator::ErrorView::FingerprintBlocked,
        !(tls_failure(before) is FingerprintBlocked) && (crate::encoding::occurs_in(
            "cert"@,
            before,
        ) || crate::encoding::occurs_in("verify"@, before)) ==> tls_failure(before)
            == crate::client::obfuscator::ErrorView::CertProblem(before),
        !crate::encoding::occurs_in("handshake_failure"@, before) && (
        !crate::encoding::occurs_in("alert"@, before) || !crate::encoding::occurs_in(
            "40"@,
            before,
        )) && !crate::encoding::occurs_in("cert"@, before) && !crate::encoding::occurs_in(
            "verify"@,
            before,
        ) ==> tls_failure(before) == crate::client::obfuscator::ErrorView::Tls(before),
{
    let text = before + "handshake_failure"@ + behind;
    let n = before.len() as int;
    assert(text.subrange(n, n + "handshake_failure"@.len()) =~= "handshake_failure"@);
    if crate::encoding::occurs_in("certificate"@, before) {
        reveal_strlit("certificate");
        reveal_strlit("cert");
        let i = choose|i: int|
            0 <= i <= before.len() - "certificate"@.len() && #[trigger] before.subrange(
                i,
                i + "certificate"@.len(),
            ) == "certificate"@;
        let found = before.subrange(i, i + 11);
        assert(found == "certificate"@);
        assert forall|k: int| 0 <= k < 4 implies before.subrange(i, i + 4)[k] == "cert"@[k] by {
            assert(found[k] == before[i + k]);
        }
        assert(before.subrange(i, i + 4) =~= "cert"@);
        assert(crate::encoding::occurs_in("cert"@, before));
    }
}

/// A bundle gives a ticket exactly if it decodes to 65 bytes, and then those bytes are the
/// ticket's.
pub proof fn law_a_bundle_is_a_ticket_of_65_bytes(raw: Result<Seq<u8>, Seq<char>>)
    ensures
        ticket_outcome(raw) is Ok <==> raw is Ok && raw->Ok_0.len() == 65,
        ticket_outcome(raw) is Ok ==> ticket_outcome(raw) == raw,
{
}

}
