//! The reliable-transport engine: the connecting side (`Sender`) that chunks
//! application bytes into framed messages and keeps every unacknowledged
//! message in a sliding window for retransmission, and the listening side
//! (`Receiver`) that acknowledges and reassembles them in order.
//!
//! Both engines are pure state machines over plain values: the caller owns
//! the socket, feeds received datagrams in, and carries returned datagrams
//! out. Blocking behaviour — back-pressure on a full window, waiting for the
//! next in-order payload — is realized by the caller retrying the operation
//! that reported it.

use vstd::map::*;
use vstd::string::StringExecFns;
use vstd::prelude::*;

use crate::codec::{
    decode, encode, spec_decode, spec_encode, Frame, FrameView, MsgType, MAX_PACKET_SIZE,
    MAX_PAYLOAD_SIZE,
};
use crate::sliding_window::{SlidingWindow, WindowError};
use crate::transport::TransportError;

verus! {

/// Milliseconds an unacknowledged entry may age before it is retransmitted.
pub const RETRANSMIT_TIMEOUT_MS: u64 = 3000;

/// How many read-timeout waits the connecting side grants the handshake
/// reply before giving up.
pub const HANDSHAKE_ATTEMPTS: u64 = 3;

/// Whether a window entry recorded at time `sent` is due for retransmission
/// at time `now` (both in milliseconds on one monotonic clock).
pub open spec fn expired_at(sent: u64, now: u64) -> bool {
    sent < now && now - sent > RETRANSMIT_TIMEOUT_MS
}

/// The sending engine: assigns each chunk of the application's byte stream
/// the next sequence number, and keeps the encoded packet of every
/// not-yet-acknowledged message, with its send time, in a sliding window.
pub struct Sender {
    /// Sequence number the next data message will carry.
    seq_num: u64,
    /// Unacknowledged messages: key is the sequence number, value is the
    /// send time (milliseconds, monotonic) and the encoded packet.
    window: SlidingWindow<(u64, Vec<u8>)>,
}

impl Sender {
    /// Sequence number the next data message will carry.
    pub closed spec fn next_seq(self) -> u64 {
        self.seq_num
    }

    /// First key of the retransmission window.
    pub closed spec fn window_start(self) -> u64 {
        self.window.start_key()
    }

    /// Slot count of the retransmission window.
    pub closed spec fn capacity(self) -> int {
        self.window.capacity()
    }

    /// The unacknowledged messages: sequence number to send time and packet
    /// bytes.
    pub closed spec fn in_flight(self) -> Map<u64, (u64, Seq<u8>)> {
        self.window.contents().map_values(|e: (u64, Vec<u8>)| (e.0, e.1@))
    }

    /// Well-formedness: the window is sound, every in-flight entry lies below
    /// the next sequence number, and every in-flight packet is the encoding
    /// of a data message carrying exactly its key.
    pub closed spec fn wf(self) -> bool {
        &&& self.window.wf()
        &&& self.window.start_key() <= self.seq_num
        &&& self.window.bound() <= if self.seq_num == 0 {
            1int
        } else {
            self.seq_num as int
        }
        &&& forall|k: u64| #[trigger]
            self.window.contents().contains_key(k) ==> k < self.seq_num && spec_decode(
                self.window.contents()[k].1@,
            ).msg_type is Message && spec_decode(self.window.contents()[k].1@).seq_num == k
                && self.window.contents()[k].1@.len() <= MAX_PACKET_SIZE
    }

    /// A fresh sender: data starts at sequence number 0 and nothing is in
    /// flight. The connection request is not held in the window; the
    /// handshake is carried out synchronously by the caller.
    pub fn new(window_size: usize) -> (s: Sender)
        requires
            2 <= window_size,
        ensures
            s.wf(),
            s.next_seq() == 0,
            s.window_start() == 0,
            s.capacity() == window_size,
            s.in_flight() == Map::<u64, (u64, Seq<u8>)>::empty(),
    {
        let s = Sender { seq_num: 0, window: SlidingWindow::new(window_size) };
        proof {
            assert(s.in_flight() =~= Map::<u64, (u64, Seq<u8>)>::empty());
        }
        s
    }

    /// The sequence number the next data message will carry. A caller that
    /// cannot reason about the window checks this against the top of the key
    /// space before staging another chunk.
    pub fn seq_num(&self) -> (r: u64)
        ensures
            r == self.next_seq(),
    {
        self.seq_num
    }

    /// The packet that opens the handshake: a `Connect` with sequence
    /// number 0.
    pub fn connect_request() -> (r: Vec<u8>)
        ensures
            r@ == spec_encode(
                FrameView { msg_type: MsgType::Connect, seq_num: 0u64, payload: Option::None },
            ),
            r@.len() <= MAX_PACKET_SIZE,
    {
        encode(&Frame { msg_type: MsgType::Connect, seq_num: 0, payload: Option::None })
    }

    /// Judge the handshake reply: only an `Acknowledge` of sequence number 0
    /// establishes the session; anything else rejects it.
    pub fn check_connect_reply(buf: &[u8]) -> (r: Result<(), TransportError>)
        ensures
            r is Ok <==> (spec_decode(buf@).msg_type is Acknowledge && spec_decode(buf@).seq_num
                == 0),
            r is Err ==> r == Err::<(), TransportError>(TransportError::HandshakeRejected),
    {
        let reply = decode(buf);
        match reply.msg_type {
            MsgType::Acknowledge => {
                if reply.seq_num == 0 {
                    Ok(())
                } else {
                    Err(TransportError::HandshakeRejected)
                }
            },
            _ => Err(TransportError::HandshakeRejected),
        }
    }

    /// After the wait numbered `attempt` (counted from 0) for the handshake
    /// reply timed out: `None` to wait again, or the terminal
    /// `HandshakeTimeout` once all attempts are spent.
    pub fn handshake_timeout_next(attempt: u64) -> (r: Option<TransportError>)
        ensures
            r is Some <==> attempt + 1 >= HANDSHAKE_ATTEMPTS,
            r is Some ==> r == Some(TransportError::HandshakeTimeout),
    {
        if attempt >= HANDSHAKE_ATTEMPTS - 1 {
            Some(TransportError::HandshakeTimeout)
        } else {
            None
        }
    }

    /// Frame one chunk of the byte stream as the next data message and
    /// record it, with send time `now`, in the retransmission window. Hands
    /// back the packet for the caller to put on the wire. `None` reports a
    /// full window — nothing is consumed or dropped; the caller lets
    /// acknowledgements drain the window and calls again.
    pub fn write_chunk(&mut self, chunk: &[u8], now: u64) -> (r: Option<Vec<u8>>)
        requires
            old(self).wf(),
            0 < chunk@.len() <= MAX_PAYLOAD_SIZE,
            old(self).next_seq() < u64::MAX,
        ensures
            final(self).wf(),
            final(self).capacity() == old(self).capacity(),
            r is Some <==> old(self).next_seq() < old(self).window_start() + old(self).capacity(),
            r matches Some(packet) ==> {
                &&& packet@ == spec_encode(
                    FrameView {
                        msg_type: MsgType::Message,
                        seq_num: old(self).next_seq(),
                        payload: Option::Some(chunk@),
                    },
                )
                &&& packet@.len() <= MAX_PACKET_SIZE
                &&& final(self).next_seq() == old(self).next_seq() + 1
                &&& final(self).window_start() == old(self).window_start()
                &&& final(self).in_flight() == old(self).in_flight().insert(
                    old(self).next_seq(),
                    (now, packet@),
                )
            },
            r is None ==> final(self).next_seq() == old(self).next_seq() && final(self).in_flight()
                == old(self).in_flight() && final(self).window_start() == old(self).window_start(),
    {
        let frame = Frame {
            msg_type: MsgType::Message,
            seq_num: self.seq_num,
            payload: Option::Some(vstd::slice::slice_to_vec(chunk)),
        };
        let packet = encode(&frame);
        let entry = (now, packet);
        let seq = self.seq_num;
        proof {
            if self.window.contents().contains_key(seq) {
                assert(seq < self.seq_num);
            }
        }
        match self.window.insert(seq, entry) {
            Result::Ok(()) => {
                self.seq_num = self.seq_num + 1;
                let ghost fv = FrameView {
                    msg_type: MsgType::Message,
                    seq_num: seq,
                    payload: Option::Some(chunk@),
                };
                proof {
                    crate::codec::lemma_encode_decode(fv);
                    assert forall|k: u64| #[trigger]
                        self.window.contents().contains_key(k) implies k < self.seq_num
                        && spec_decode(self.window.contents()[k].1@).msg_type is Message
                        && spec_decode(self.window.contents()[k].1@).seq_num == k
                        && self.window.contents()[k].1@.len() <= MAX_PACKET_SIZE by {
                        if k != seq {
                            assert(old(self).window.contents().contains_key(k));
                        }
                    }
                    assert_maps_equal!(self.in_flight(),
                        old(self).in_flight().insert(seq, (now, spec_encode(fv))), k => {
                    });
                }
                // The caller sends this packet; a clone of it stays in the window.
                let stored = self.window.get(seq).unwrap();
                let resend = stored.1.clone();
                proof {
                    assert(resend@ =~= spec_encode(fv));
                }
                Some(resend)
            },
            Result::Err(_) => None,
        }
    }

    /// Take one datagram received on the acknowledgement path. Anything but
    /// an `Acknowledge` is a protocol violation and changes nothing. An
    /// `Acknowledge` clears its sequence number from the window; one for a
    /// number not (or no longer) in flight is tolerated and changes nothing,
    /// so a duplicated acknowledgement cannot disturb other entries.
    pub fn handle_ack(&mut self, buf: &[u8]) -> (r: Result<(), TransportError>)
        requires
            old(self).wf(),
        ensures
            final(self).wf(),
            final(self).capacity() == old(self).capacity(),
            r is Ok <==> spec_decode(buf@).msg_type is Acknowledge,
            r is Err ==> r == Err::<(), TransportError>(TransportError::ProtocolViolation)
                && *final(self) == *old(self),
            r is Ok ==> ack_transition(*old(self), *final(self), spec_decode(buf@).seq_num),
    {
        let ack = decode(buf);
        match ack.msg_type {
            MsgType::Acknowledge => {
                let ghost pre = *self;
                let acked = ack.seq_num;
                match self.window.remove(acked) {
                    Result::Ok(_) => {
                        proof {
                            assert(pre.window.contents().contains_key(acked));
                            assert(acked < pre.seq_num);
                            assert_maps_equal!(self.in_flight(),
                                pre.in_flight().remove(acked), k => {});
                        }
                    },
                    Result::Err(_) => {
                        proof {
                            assert(!pre.window.contents().contains_key(acked));
                            assert_maps_equal!(self.in_flight(),
                                pre.in_flight().remove(acked), k => {});
                        }
                    },
                }
                Ok(())
            },
            _ => Err(TransportError::ProtocolViolation),
        }
    }

    /// The lowest-numbered in-flight message whose last transmission is older
    /// than the retransmission timeout at time `now`, if any.
    pub fn due_retransmit(&self, now: u64) -> (r: Option<u64>)
        requires
            self.wf(),
        ensures
            r matches Some(k) ==> {
                &&& self.in_flight().contains_key(k)
                &&& expired_at(self.in_flight()[k].0, now)
                &&& forall|k2: u64|
                    self.window_start() <= k2 < k && self.in_flight().contains_key(k2)
                        ==> !expired_at(self.in_flight()[k2].0, now)
            },
            r is None ==> forall|k2: u64|
                self.in_flight().contains_key(k2) ==> !expired_at(self.in_flight()[k2].0, now),
    {
        let pred = |e: &(u64, Vec<u8>)| -> (b: bool)
            ensures
                b == expired_at(e.0, now),
            { e.0 < now && now - e.0 > RETRANSMIT_TIMEOUT_MS };
        let r = self.window.find_first(pred);
        proof {
            match r {
                Option::Some(k) => {
                    assert(self.in_flight()[k].0 == self.window.contents()[k].0);
                },
                Option::None => {},
            }
        }
        r
    }

    /// Refresh the in-flight entry for `k` to send time `now` and hand back
    /// its packet for the caller to put on the wire again. The sequence
    /// number stays pinned — only the retransmission clock resets — and no
    /// other entry is touched. `None` if `k` is not in flight (it was
    /// acknowledged in the meantime), which changes nothing.
    pub fn refresh_entry(&mut self, k: u64, now: u64) -> (r: Option<Vec<u8>>)
        requires
            old(self).wf(),
        ensures
            final(self).wf(),
            final(self).capacity() == old(self).capacity(),
            r is Some <==> old(self).in_flight().contains_key(k),
            r matches Some(packet) ==> packet@ == old(self).in_flight()[k].1
                && refresh_transition(*old(self), *final(self), k, now),
            r is None ==> *final(self) == *old(self),
    {
        let resend = match self.window.get(k) {
            Option::Some(e) => e.1.clone(),
            Option::None => {
                return None;
            },
        };
        proof {
            assert(resend@ =~= self.window.contents()[k].1@);
        }
        let replaced = self.window.replace(k, (now, resend));
        match replaced {
            Result::Ok(e) => {
                proof {
                    assert_maps_equal!(self.in_flight(),
                        old(self).in_flight().insert(k, (now, old(self).in_flight()[k].1)), k2 => {});
                }
                Some(e.1)
            },
            Result::Err(_) => {
                // Unreachable: `get` just found the key live.
                None
            },
        }
    }
}

/// What `Receiver::ingest` did with one datagram.
#[derive(Debug)]
pub enum Ingest {
    /// The message lies below the window: it was already delivered to the
    /// application, so this arrival is a duplicate on the wire. The payload
    /// is dropped; the enclosed acknowledgement is repeated, since the loss
    /// of the first acknowledgement would otherwise pin the sender's entry
    /// forever.
    Old(Vec<u8>),
    /// The message lies at or beyond the window's end. Nothing is stored;
    /// the caller lets the application drain the window and offers the
    /// datagram again.
    Full,
    /// The payload is buffered at its sequence number; send the enclosed
    /// acknowledgement to the peer.
    Stored(Vec<u8>),
    /// The sequence number is already buffered (a retransmission); the
    /// buffer stands as it was, and the enclosed acknowledgement is sent
    /// again.
    Duplicate(Vec<u8>),
}

/// The receiving engine: buffers the payload of every accepted data message
/// at its sequence number, and hands payloads to the application strictly in
/// sequence order.
pub struct Receiver {
    /// Buffered payloads: key is the sequence number of the data message.
    window: SlidingWindow<Vec<u8>>,
}

impl Receiver {
    /// The next sequence number owed to the application.
    pub closed spec fn window_start(self) -> u64 {
        self.window.start_key()
    }

    /// Slot count of the reassembly window.
    pub closed spec fn capacity(self) -> int {
        self.window.capacity()
    }

    /// The buffered payloads, by sequence number.
    pub closed spec fn buffered(self) -> Map<u64, Seq<u8>> {
        self.window.contents().map_values(|v: Vec<u8>| v@)
    }

    /// Well-formedness: the window is sound, every buffered payload fits the
    /// payload budget (so any buffer of `MAX_PAYLOAD_SIZE` bytes can receive
    /// it), and no key was ever consumed out of turn — only `read` removes,
    /// and only at the front — so delivery can skip nothing.
    pub closed spec fn wf(self) -> bool {
        &&& self.window.wf()
        &&& self.window.consumed() == Set::<u64>::empty()
        &&& forall|k: u64| #[trigger]
            self.window.contents().contains_key(k) ==> self.window.contents()[k]@.len()
                <= MAX_PAYLOAD_SIZE
    }

    /// A fresh receiver: delivery starts at sequence number 0 and nothing is
    /// buffered.
    pub fn new(window_size: usize) -> (r: Receiver)
        requires
            2 <= window_size,
        ensures
            r.wf(),
            r.window_start() == 0,
            r.capacity() == window_size,
            r.buffered() == Map::<u64, Seq<u8>>::empty(),
    {
        let r = Receiver { window: SlidingWindow::new(window_size) };
        proof {
            assert(r.buffered() =~= Map::<u64, Seq<u8>>::empty());
        }
        r
    }

    /// Judge the first datagram of a session. A `Connect` is answered with
    /// an `Acknowledge` echoing its sequence number, which the caller sends
    /// back to the peer's address; anything else is rejected with no state
    /// change.
    pub fn accept_connect(buf: &[u8]) -> (r: Result<Vec<u8>, TransportError>)
        ensures
            r is Ok <==> spec_decode(buf@).msg_type is Connect,
            r matches Ok(ack) ==> ack@ == spec_encode(
                FrameView {
                    msg_type: MsgType::Acknowledge,
                    seq_num: spec_decode(buf@).seq_num,
                    payload: Option::None,
                },
            ) && ack@.len() <= MAX_PACKET_SIZE,
            r is Err ==> r == Err::<Vec<u8>, TransportError>(TransportError::ProtocolViolation),
    {
        let first = decode(buf);
        match first.msg_type {
            MsgType::Connect => Ok(
                encode(
                    &Frame {
                        msg_type: MsgType::Acknowledge,
                        seq_num: first.seq_num,
                        payload: Option::None,
                    },
                ),
            ),
            _ => Err(TransportError::ProtocolViolation),
        }
    }

    /// Take one datagram from the ingest path. Only data messages are
    /// admitted in steady state; the outcome says whether the payload was
    /// buffered, was a duplicate, lay below the window, or must wait for the
    /// application to drain the window. Every outcome but `Full` hands back
    /// the acknowledgement to send, and only after the payload is safely
    /// stored (or known to be already delivered): an acknowledgement always
    /// means the receiver has the bytes.
    pub fn ingest(&mut self, buf: &[u8]) -> (r: Result<Ingest, TransportError>)
        requires
            old(self).wf(),
        ensures
            final(self).wf(),
            final(self).capacity() == old(self).capacity(),
            final(self).window_start() == old(self).window_start(),
            r is Err <==> !(spec_decode(buf@).msg_type is Message) || spec_decode(buf@).seq_num
                == u64::MAX,
            r is Err ==> r == Err::<Ingest, TransportError>(TransportError::ProtocolViolation)
                && *final(self) == *old(self),
            ({
                let f = spec_decode(buf@);
                let k = f.seq_num;
                let lo = old(self).window_start();
                let hi = old(self).window_start() + old(self).capacity();
                let pre = old(self).buffered();
                let post = final(self).buffered();
                &&& (r is Ok && k < lo ==> {
                    &&& r matches Ok(o)
                    &&& o matches Ingest::Old(ack)
                    &&& ack@ == spec_ack_for(k)
                    &&& post == pre
                })
                &&& (r is Ok && k >= hi ==> r == Ok::<Ingest, TransportError>(Ingest::Full) && post
                    == pre)
                &&& (r is Ok && lo <= k < hi && pre.contains_key(k) ==> {
                    &&& r matches Ok(o)
                    &&& o matches Ingest::Duplicate(ack)
                    &&& ack@ == spec_ack_for(k)
                    &&& post == pre
                })
                &&& (r is Ok && lo <= k < hi && !pre.contains_key(k) ==> {
                    &&& r matches Ok(o)
                    &&& o matches Ingest::Stored(ack)
                    &&& ack@ == spec_ack_for(k)
                    &&& post == pre.insert(k, f.payload->0)
                })
            }),
    {
        proof {
            crate::sliding_window::lemma_wf_bounds(self.window);
        }
        let msg = decode(buf);
        match msg.msg_type {
            MsgType::Message => {},
            _ => {
                return Err(TransportError::ProtocolViolation);
            },
        }
        let k = msg.seq_num;
        if k == u64::MAX {
            return Err(TransportError::ProtocolViolation);
        }
        if k < self.window.window().0 {
            return Ok(Ingest::Old(ack_for(k)));
        }
        let payload = match msg.payload {
            Option::Some(p) => p,
            Option::None => {
                // A data frame always decodes with a payload.
                return Err(TransportError::ProtocolViolation);
            },
        };
        let ghost pre = *self;
        match self.window.insert(k, payload) {
            Result::Ok(()) => {
                proof {
                    assert_maps_equal!(self.buffered(),
                        pre.buffered().insert(k, spec_decode(buf@).payload->0), k2 => {});
                    assert(self.window.consumed() =~= Set::<u64>::empty());
                }
                Ok(Ingest::Stored(ack_for(k)))
            },
            Result::Err(WindowError::Full) => Ok(Ingest::Full),
            Result::Err(_) => {
                // `Duplicate` is the only other reachable failure: the key is
                // neither below the window nor beyond it.
                Ok(Ingest::Duplicate(ack_for(k)))
            },
        }
    }

    /// Hand the application the next in-order payload: the one buffered at
    /// the window's first key. The payload bytes are copied to the front of
    /// `buf`, which must offer at least `MAX_PAYLOAD_SIZE` bytes, and the
    /// window advances. `None` while that payload has not arrived; the
    /// caller retries.
    pub fn read(&mut self, buf: &mut Vec<u8>) -> (r: Option<usize>)
        requires
            old(self).wf(),
            old(buf)@.len() >= MAX_PAYLOAD_SIZE,
        ensures
            final(self).wf(),
            final(self).capacity() == old(self).capacity(),
            final(buf)@.len() == old(buf)@.len(),
            r is Some <==> old(self).buffered().contains_key(old(self).window_start()),
            r matches Some(n) ==> {
                let p = old(self).buffered()[old(self).window_start()];
                &&& n == p.len()
                &&& final(buf)@ == p + old(buf)@.skip(n as int)
                &&& final(self).buffered() == old(self).buffered().remove(
                    old(self).window_start(),
                )
                &&& final(self).window_start() == old(self).window_start() + 1
            },
            r is None ==> final(self).buffered() == old(self).buffered() && final(self)
                .window_start() == old(self).window_start() && final(buf)@ == old(buf)@,
    {
        let ghost pre = *self;
        match self.window.pop() {
            Option::Some(p) => {
                proof {
                    assert(pre.window.contents().contains_key(pre.window.start_key()));
                    crate::sliding_window::lemma_pop_consecutive(
                        pre.window,
                        self.window,
                        pre.window.start_key(),
                        p,
                    );
                    assert_maps_equal!(self.buffered(),
                        pre.buffered().remove(pre.window.start_key()), k2 => {});
                }
                let n = p.len();
                let mut i: usize = 0;
                while i < n
                    invariant
                        i <= n,
                        n == p@.len(),
                        n <= buf@.len(),
                        buf@.len() == old(buf)@.len(),
                        buf@ == p@.take(i as int) + old(buf)@.skip(i as int),
                    decreases n - i,
                {
                    buf.set(i, p[i]);
                    proof {
                        assert(buf@ =~= p@.take(i + 1) + old(buf)@.skip(i + 1));
                    }
                    i += 1;
                }
                proof {
                    assert(buf@ =~= p@ + old(buf)@.skip(n as int));
                }
                Some(n)
            },
            Option::None => None,
        }
    }
}

/// The wire image of the acknowledgement for sequence number `k`.
pub open spec fn spec_ack_for(k: u64) -> Seq<u8> {
    spec_encode(FrameView { msg_type: MsgType::Acknowledge, seq_num: k, payload: Option::None })
}

/// Encode the acknowledgement for sequence number `k`.
fn ack_for(k: u64) -> (r: Vec<u8>)
    ensures
        r@ == spec_ack_for(k),
        r@.len() <= MAX_PACKET_SIZE,
{
    encode(&Frame { msg_type: MsgType::Acknowledge, seq_num: k, payload: Option::None })
}

/// The relation `handle_ack` establishes for an acknowledgement of sequence
/// number `k`: exactly that number leaves the in-flight set — a number not
/// in flight leaves the sender unchanged — and the sequence counter stands.
pub open spec fn ack_transition(pre: Sender, post: Sender, k: u64) -> bool {
    &&& pre.wf()
    &&& post.wf()
    &&& post.in_flight() == pre.in_flight().remove(k)
    &&& post.next_seq() == pre.next_seq()
    &&& post.window_start() >= pre.window_start()
    &&& post.capacity() == pre.capacity()
}

/// The relation `refresh_entry` establishes when it refreshes the entry for
/// `k` at time `now`: the same packet stays at the same key with a new send
/// time, and everything else stands.
pub open spec fn refresh_transition(pre: Sender, post: Sender, k: u64, now: u64) -> bool {
    &&& pre.wf()
    &&& post.wf()
    &&& pre.in_flight().contains_key(k)
    &&& post.in_flight() == pre.in_flight().insert(k, (now, pre.in_flight()[k].1))
    &&& post.next_seq() == pre.next_seq()
    &&& post.window_start() == pre.window_start()
    &&& post.capacity() == pre.capacity()
}

/// Idempotent acknowledgement handling: an acknowledgement that arrives a
/// second time changes nothing, and no other entry's state shifts on either
/// arrival.
pub proof fn lemma_ack_idempotent(s0: Sender, s1: Sender, s2: Sender, k: u64)
    requires
        ack_transition(s0, s1, k),
        ack_transition(s1, s2, k),
    ensures
        s2.in_flight() == s1.in_flight(),
        forall|k2: u64|
            k2 != k && #[trigger] s0.in_flight().contains_key(k2) ==> s2.in_flight().contains_key(
                k2,
            ) && s2.in_flight()[k2] == s0.in_flight()[k2],
{
    assert_maps_equal!(s2.in_flight(), s1.in_flight(), k2 => {});
}

/// Retransmission loses nothing: refreshing an entry keeps the in-flight
/// set's keys and re-sends byte-for-byte the packet first sent for that
/// sequence number.
pub proof fn lemma_retransmit_keeps_packet(s0: Sender, s1: Sender, k: u64, now: u64)
    requires
        refresh_transition(s0, s1, k, now),
    ensures
        s1.in_flight().dom() == s0.in_flight().dom(),
        s1.in_flight()[k].1 == s0.in_flight()[k].1,
        forall|k2: u64|
            k2 != k && #[trigger] s0.in_flight().contains_key(k2) ==> s1.in_flight()[k2] == s0
                .in_flight()[k2],
{
    assert(s1.in_flight().dom() =~= s0.in_flight().dom());
}

/// Every packet the sender keeps for retransmission is the encoding of a
/// data message carrying exactly its window key: retransmission can never
/// change which bytes stand at which sequence number.
pub proof fn lemma_in_flight_packets_pinned(s: Sender, k: u64)
    requires
        s.wf(),
        s.in_flight().contains_key(k),
    ensures
        spec_decode(s.in_flight()[k].1).msg_type is Message,
        spec_decode(s.in_flight()[k].1).seq_num == k,
{
}

/// Slice the application's bytes into payload-sized chunks, in order: every
/// chunk but the last is exactly `MAX_PAYLOAD_SIZE` long, none is empty, and
/// their concatenation is exactly the input. Delivering every chunk's
/// payload in order therefore reproduces the byte stream.
pub fn split_chunks(buf: &[u8]) -> (r: Vec<Vec<u8>>)
    ensures
        chunk_views(r@).flatten() == buf@,
        forall|j: int| 0 <= j < r@.len() ==> 0 < (#[trigger] r@[j])@.len() <= MAX_PAYLOAD_SIZE,
        forall|j: int| 0 <= j < r@.len() - 1 ==> (#[trigger] r@[j])@.len() == MAX_PAYLOAD_SIZE,
{
    let mut r: Vec<Vec<u8>> = Vec::new();
    let mut i: usize = 0;
    proof {
        assert(chunk_views(r@) =~= Seq::<Seq<u8>>::empty());
        assert(chunk_views(r@).flatten() =~= buf@.take(0));
    }
    while i < buf.len()
        invariant
            i <= buf@.len(),
            chunk_views(r@).flatten() == buf@.take(i as int),
            forall|j: int| 0 <= j < r@.len() ==> 0 < (#[trigger] r@[j])@.len() <= MAX_PAYLOAD_SIZE,
            forall|j: int|
                0 <= j < r@.len() - 1 ==> (#[trigger] r@[j])@.len() == MAX_PAYLOAD_SIZE,
            i < buf@.len() && r@.len() > 0 ==> r@[r@.len() - 1]@.len() == MAX_PAYLOAD_SIZE,
        decreases buf@.len() - i,
    {
        let remaining = buf.len() - i;
        let take = if remaining > MAX_PAYLOAD_SIZE {
            MAX_PAYLOAD_SIZE
        } else {
            remaining
        };
        let chunk = vstd::slice::slice_to_vec(vstd::slice::slice_subrange(buf, i, i + take));
        let ghost prev = r@;
        r.push(chunk);
        proof {
            broadcast use vstd::prelude::Seq::lemma_flatten_push;

            assert(chunk_views(r@) =~= chunk_views(prev).push(
                buf@.subrange(i as int, i + take),
            ));
            assert(buf@.take(i as int) + buf@.subrange(i as int, i + take) =~= buf@.take(
                i + take,
            ));
        }
        i = i + take;
    }
    proof {
        assert(buf@.take(buf@.len() as int) =~= buf@);
    }
    r
}

/// The byte sequences a sequence of chunks carries, in order.
pub open spec fn chunk_views(s: Seq<Vec<u8>>) -> Seq<Seq<u8>> {
    Seq::new(s.len(), |j: int| s[j]@)
}

/// The character standing for the hex digit `n`.
pub open spec fn hex_digit(n: u8) -> char
    recommends
        n < 16,
{
    if n == 0 {
        '0'
    } else if n == 1 {
        '1'
    } else if n == 2 {
        '2'
    } else if n == 3 {
        '3'
    } else if n == 4 {
        '4'
    } else if n == 5 {
        '5'
    } else if n == 6 {
        '6'
    } else if n == 7 {
        '7'
    } else if n == 8 {
        '8'
    } else if n == 9 {
        '9'
    } else if n == 10 {
        'A'
    } else if n == 11 {
        'B'
    } else if n == 12 {
        'C'
    } else if n == 13 {
        'D'
    } else if n == 14 {
        'E'
    } else {
        'F'
    }
}

/// A byte buffer rendered as text: each byte as two upper-case hex digits
/// followed by one space.
pub open spec fn spec_hex_bytes(b: Seq<u8>) -> Seq<char>
    decreases b.len(),
{
    if b.len() == 0 {
        Seq::empty()
    } else {
        spec_hex_bytes(b.drop_last()) + seq![
            hex_digit(b.last() / 16),
            hex_digit(b.last() % 16),
            ' ',
        ]
    }
}

/// The one-character string of the hex digit `n`.
fn hex_char_str(n: u8) -> (r: &'static str)
    requires
        n < 16,
    ensures
        r@ == seq![hex_digit(n)],
{
    proof {
        reveal_strlit("0");
        reveal_strlit("1");
        reveal_strlit("2");
        reveal_strlit("3");
        reveal_strlit("4");
        reveal_strlit("5");
        reveal_strlit("6");
        reveal_strlit("7");
        reveal_strlit("8");
        reveal_strlit("9");
        reveal_strlit("A");
        reveal_strlit("B");
        reveal_strlit("C");
        reveal_strlit("D");
        reveal_strlit("E");
        reveal_strlit("F");
    }
    let r = if n == 0 {
        "0"
    } else if n == 1 {
        "1"
    } else if n == 2 {
        "2"
    } else if n == 3 {
        "3"
    } else if n == 4 {
        "4"
    } else if n == 5 {
        "5"
    } else if n == 6 {
        "6"
    } else if n == 7 {
        "7"
    } else if n == 8 {
        "8"
    } else if n == 9 {
        "9"
    } else if n == 10 {
        "A"
    } else if n == 11 {
        "B"
    } else if n == 12 {
        "C"
    } else if n == 13 {
        "D"
    } else if n == 14 {
        "E"
    } else {
        "F"
    };
    proof {
        assert(r@ =~= seq![hex_digit(n)]);
    }
    r
}

/// Render a packet as text, two upper-case hex digits and a space per byte,
/// for diagnostics.
pub fn buf2string(buf: &[u8]) -> (r: String)
    ensures
        r@ == spec_hex_bytes(buf@),
{
    let mut s = String::new();
    let mut i: usize = 0;
    while i < buf.len()
        invariant
            i <= buf@.len(),
            s@ == spec_hex_bytes(buf@.take(i as int)),
        decreases buf@.len() - i,
    {
        let b = *vstd::slice::slice_index_get(buf, i);
        s.append(hex_char_str(b / 16));
        s.append(hex_char_str(b % 16));
        s.append(" ");
        proof {
            reveal_strlit(" ");
            assert(buf@.take(i + 1).drop_last() =~= buf@.take(i as int));
            assert(buf@.take(i + 1).last() == buf@[i as int]);
            assert(s@ =~= spec_hex_bytes(buf@.take(i + 1)));
        }
        i += 1;
    }
    proof {
        assert(buf@.take(buf@.len() as int) =~= buf@);
    }
    s
}

} // verus!
