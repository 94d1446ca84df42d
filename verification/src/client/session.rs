//! Sans-IO veil-front data-plane session.
//!
//! The chaff/payload policy for one authenticated veil-front tunnel, with **no I/O**: no sockets,
//! no async runtime, no system clock. Local bytes go in and frames come out, and the other way
//! round. How frames are put on the wire, and when chaff is owed, is the driver's.

use crate::buffers::copy_bytes;
use crate::protocol::frame::{Frame, FrameKind};
use bytes::Bytes;
use vstd::prelude::*;

verus! {

/// A veil-front session, split into an up half and a down half so a driver can run
/// the two directions concurrently: they share no mutable state.
pub struct VeilFrontSession;

impl VeilFrontSession {
    /// Create the two sans-IO halves for one tunnel.
    pub fn new() -> (r: (VeilFrontUp, VeilFrontDown))
        ensures
            r.0.queued() == Seq::<Frame>::empty(),
            r.1.received() == Seq::<Frame>::empty(),
    {
        (VeilFrontUp { payload_queue: Vec::new() }, VeilFrontDown { frames: Vec::new() })
    }
}

/// Up direction: local plaintext (gRPC h2c) to `DATA`/`CHAFF` frames to relay.
///
/// Pure policy: queue local bytes, then emit one frame at a time with payload priority and idle
/// chaff.
pub struct VeilFrontUp {
    payload_queue: Vec<Frame>,
}

/// Whether a frame is the `DATA` frame for some bytes.
pub open spec fn carries(frame: Frame, data: Seq<u8>) -> bool {
    frame.kind == FrameKind::Data && crate::buffers::bytes_in(frame.payload) == data
}

impl VeilFrontUp {
    /// The frames that are queued, the oldest first.
    pub closed spec fn queued(&self) -> Seq<Frame> {
        self.payload_queue@
    }

    /// Queue a chunk of local plaintext to be sent as a `DATA` frame.
    pub fn queue_local(&mut self, data: &[u8])
        ensures
            final(self).queued().len() == old(self).queued().len() + 1,
            final(self).queued().drop_last() == old(self).queued(),
            carries(final(self).queued().last(), data@),
    {
        self.payload_queue.push(Frame::data(copy_bytes(data)));
        assert(self.queued().drop_last() =~= old(self).queued());
    }

    /// The next frame to send to the relay. `chaff` is the chaff frame that is owed now, if one is.
    ///
    /// Payload takes priority; chaff fills idle time, and stays owed while there is payload. One
    /// frame per call: the caller loops. `None` means nothing is due right now (no payload queued
    /// and no chaff owed).
    pub fn next_frame(&mut self, chaff: &mut Option<Frame>) -> (r: Option<Frame>)
        ensures
            old(self).queued().len() > 0 ==> {
                &&& r == Some(old(self).queued()[0])
                &&& final(self).queued() == old(self).queued().skip(1)
                &&& *final(chaff) == *old(chaff)
            },
            old(self).queued().len() == 0 ==> {
                &&& r == *old(chaff)
                &&& final(self).queued() == old(self).queued()
                &&& *final(chaff) is None
            },
    {
        if self.payload_queue.len() > 0 {
            let frame: Frame = self.payload_queue.remove(0);
            assert(self.queued() =~= old(self).queued().skip(1));
            Some(frame)
        } else {
            chaff.take()
        }
    }

    /// Whether anything is due (payload or owed chaff) right now.
    pub fn has_pending(&self, chaff_owed: bool) -> (r: bool)
        ensures
            r == (self.queued().len() > 0 || chaff_owed),
    {
        self.payload_queue.len() > 0 || chaff_owed
    }
}

/// Down direction: relay frames to local plaintext, dropping `CHAFF`.
///
/// Pure: feed relay frames, pop `DATA` payloads.
pub struct VeilFrontDown {
    frames: Vec<Frame>,
}

/// The payloads of the `DATA` frames among some frames, in order.
pub open spec fn payloads(frames: Seq<Frame>) -> Seq<Seq<u8>>
    decreases frames.len(),
{
    if frames.len() == 0 {
        Seq::empty()
    } else if frames[0].kind == FrameKind::Data {
        seq![crate::buffers::bytes_in(frames[0].payload)] + payloads(frames.skip(1))
    } else {
        payloads(frames.skip(1))
    }
}

/// The frames behind the first `DATA` frame among some frames; none where there is no such frame.
pub open spec fn behind_first(frames: Seq<Frame>) -> Seq<Frame>
    decreases frames.len(),
{
    if frames.len() == 0 {
        frames
    } else if frames[0].kind == FrameKind::Data {
        frames.skip(1)
    } else {
        behind_first(frames.skip(1))
    }
}

impl VeilFrontDown {
    /// The frames that were fed and not used up yet, the oldest first.
    pub closed spec fn received(&self) -> Seq<Frame> {
        self.frames@
    }

    /// Feed a frame received from the relay.
    pub fn feed(&mut self, frame: Frame)
        ensures
            final(self).received() == old(self).received().push(frame),
    {
        self.frames.push(frame);
    }

    /// Pop the next `DATA` payload to write to the local stream, dropping any `CHAFF` (and
    /// ignoring stray AUTH/unknown frames) along the way. `None` means no `DATA` frame is there
    /// yet: feed more.
    pub fn next_payload(&mut self) -> (r: Option<Bytes>)
        ensures
            final(self).received() == behind_first(old(self).received()),
            r is None <==> payloads(old(self).received()).len() == 0,
            r is None ==> final(self).received().len() == 0,
            r matches Some(payload) ==> {
                &&& payloads(old(self).received())[0] == crate::buffers::bytes_in(payload)
                &&& payloads(final(self).received()) == payloads(old(self).received()).skip(1)
                &&& final(self).received().len() < old(self).received().len()
            },
    {
        while self.frames.len() > 0
            invariant
                payloads(self.frames@) == payloads(old(self).received()),
                behind_first(self.frames@) == behind_first(old(self).received()),
                self.frames@.len() <= old(self).received().len(),
            decreases self.frames@.len(),
        {
            let ghost before = self.frames@;
            let frame: Frame = self.frames.remove(0);
            assert(self.frames@ =~= before.skip(1));
            if frame.is_data() {
                proof {
                    let all = payloads(before);
                    assert(all.skip(1) =~= payloads(self.frames@));
                }
                return Some(frame.payload);
            }
        }
        assert(self.frames@ =~= behind_first(self.frames@));
        None
    }
}

/// A queued payload is never held up by chaff: what was queued goes out first, in the order it was
/// queued, whatever chaff is owed; only an empty queue lets chaff out. So whatever cover frames the
/// driver mixes in, the other end gets the queued payloads in order and nothing else.
pub proof fn law_payloads_arrive_in_order(sent: Seq<Frame>, cover: Frame, behind: Seq<Frame>)
    requires
        cover.kind != FrameKind::Data,
    ensures
        payloads(sent.push(cover) + behind) == payloads(sent + behind),
        payloads(sent + behind) == payloads(sent) + payloads(behind),
{
    lemma_payloads_add(sent, behind);
    lemma_payloads_add(sent.push(cover), behind);
    lemma_payloads_add(sent, seq![cover]);
    assert(sent.push(cover) =~= sent + seq![cover]);
    assert(payloads(seq![cover].skip(1)) =~= Seq::empty());
    assert(payloads(sent) + payloads(seq![cover]) =~= payloads(sent));
}

/// What one end queues, the other end pops: a list of `DATA` frames gives their payloads, each
/// once and in order.
pub proof fn law_what_is_queued_is_delivered(chunks: Seq<Seq<u8>>, frames: Seq<Frame>)
    requires
        frames.len() == chunks.len(),
        forall|i: int| 0 <= i < frames.len() ==> carries(#[trigger] frames[i], chunks[i]),
    ensures
        payloads(frames) == chunks,
    decreases frames.len(),
{
    if frames.len() > 0 {
        let (f, c) = (frames.skip(1), chunks.skip(1));
        assert forall|i: int| 0 <= i < f.len() implies carries(#[trigger] f[i], c[i]) by {
            assert(f[i] == frames[i + 1]);
        }
        law_what_is_queued_is_delivered(c, f);
        assert(carries(frames[0], chunks[0]));
        assert(seq![chunks[0]] + c =~= chunks);
    } else {
        assert(chunks =~= Seq::empty());
    }
}

proof fn lemma_payloads_add(a: Seq<Frame>, b: Seq<Frame>)
    ensures
        payloads(a + b) == payloads(a) + payloads(b),
    decreases a.len(),
{
    if a.len() == 0 {
        assert(a + b =~= b);
        assert(payloads(a) + payloads(b) =~= payloads(b));
    } else {
        let rest = a.skip(1);
        lemma_payloads_add(rest, b);
        assert((a + b).skip(1) =~= rest + b);
        if a[0].kind == FrameKind::Data {
            let head = seq![crate::buffers::bytes_in(a[0].payload)];
            assert(head + (payloads(rest) + payloads(b)) =~= head + payloads(rest) + payloads(b));
        }
    }
}

proof fn lemma_behind_first(frames: Seq<Frame>)
    ensures
        payloads(frames).len() == 0 ==> behind_first(frames).len() == 0,
        payloads(frames).len() > 0 ==> payloads(behind_first(frames)) == payloads(frames).skip(1),
    decreases frames.len(),
{
    if frames.len() > 0 {
        if frames[0].kind == FrameKind::Data {
            assert(payloads(frames).skip(1) =~= payloads(frames.skip(1)));
        } else {
            lemma_behind_first(frames.skip(1));
        }
    }
}

/// One thing that is done with the down half: a frame is fed, or a payload is asked for.
pub enum DownStep {
    Feed(Frame),
    Pop,
}

/// The frames that are left in a fresh down half, and the payloads that came out of it, after some
/// steps, one after the other.
pub open spec fn ran(steps: Seq<DownStep>) -> (Seq<Frame>, Seq<Seq<u8>>)
    decreases steps.len(),
{
    if steps.len() == 0 {
        (Seq::empty(), Seq::empty())
    } else {
        let (left, out) = ran(steps.drop_last());
        match steps.last() {
            DownStep::Feed(frame) => (left.push(frame), out),
            DownStep::Pop => (
                behind_first(left),
                if payloads(left).len() > 0 {
                    out.push(payloads(left)[0])
                } else {
                    out
                },
            ),
        }
    }
}

/// The frames that were fed in some steps.
pub open spec fn fed(steps: Seq<DownStep>) -> Seq<Frame>
    decreases steps.len(),
{
    if steps.len() == 0 {
        Seq::empty()
    } else {
        match steps.last() {
            DownStep::Feed(frame) => fed(steps.drop_last()).push(frame),
            DownStep::Pop => fed(steps.drop_last()),
        }
    }
}

/// However frames are fed and payloads asked for, what came out and what is still to come are the
/// payloads of the `DATA` frames that were fed, each once and in order, and nothing of any other
/// frame. Nothing is still to come exactly if the next one asked for is not there.
pub proof fn law_every_payload_comes_out_once(steps: Seq<DownStep>)
    ensures
        ({
            let (left, out) = ran(steps);
            &&& out + payloads(left) == payloads(fed(steps))
            &&& payloads(left).len() == 0 ==> out == payloads(fed(steps))
        }),
    decreases steps.len(),
{
    let (left, out) = ran(steps);
    if steps.len() > 0 {
        let less = steps.drop_last();
        law_every_payload_comes_out_once(less);
        let (before, earlier) = ran(less);
        match steps.last() {
            DownStep::Feed(frame) => {
                assert(before.push(frame) =~= before + seq![frame]);
                assert(fed(less).push(frame) =~= fed(less) + seq![frame]);
                lemma_payloads_add(before, seq![frame]);
                lemma_payloads_add(fed(less), seq![frame]);
                assert(out + payloads(left) =~= earlier + payloads(before) + payloads(
                    seq![frame],
                ));
            },
            DownStep::Pop => {
                lemma_behind_first(before);
                assert(out + payloads(left) =~= earlier + payloads(before));
            },
        }
    } else {
        assert(out + payloads(left) =~= payloads(fed(steps)));
    }
    if payloads(left).len() == 0 {
        assert(out + payloads(left) =~= out);
    }
}

}
