//! One link to a peer: messages go out as length-prefixed frames through a bounded
//! queue, and bytes that come in, however they were cut up on the way, give back the
//! frames. The socket itself is the caller's.

use vstd::prelude::*;
use crate::wire::{
    dec_msg, dec_msg_of, enc_msg, enc_msg_of, le, le_roundtrip, lemma_le_len, msg_roundtrip, pow256, unle,
    unle_roundtrip, encodable_msg, Msg, MsgV, Rdr, MAX_FRAME,
};

verus! {

/// Cap on the send queue. It only grows while the other side does not drain it, and a
/// peer that is a megabyte behind is gone.
pub const MAX_OUTBUF: usize = 1_048_576;

/// A payload with its length in front.
pub open spec fn framed(payload: Seq<u8>) -> Seq<u8> {
    le(payload.len() as int, 4) + payload
}

/// Several payloads, each framed, one after the other.
pub open spec fn stream_of(payloads: Seq<Seq<u8>>) -> Seq<u8>
    decreases payloads.len(),
{
    if payloads.len() == 0 {
        Seq::empty()
    } else {
        framed(payloads[0]) + stream_of(payloads.drop_first())
    }
}

/// What a run of received bytes holds: complete frames, what is left over, and
/// whether a frame longer than any real one was announced.
#[verifier::ext_equal]
pub struct Parsed {
    pub frames: Seq<Seq<u8>>,
    pub rest: Seq<u8>,
    pub bad: bool,
}

/// Length announced at the front of some bytes.
pub open spec fn announced(s: Seq<u8>) -> int {
    unle(s.take(4))
}

/// Takes received bytes apart. An oversized length ends it: the bytes from there on
/// are thrown away.
pub open spec fn parse(s: Seq<u8>) -> Parsed
    decreases s.len(),
{
    if s.len() < 4 {
        Parsed { frames: Seq::empty(), rest: s, bad: false }
    } else if announced(s) > MAX_FRAME {
        Parsed { frames: Seq::empty(), rest: Seq::empty(), bad: true }
    } else if announced(s) < 0 || s.len() < 4 + announced(s) {
        Parsed { frames: Seq::empty(), rest: s, bad: false }
    } else {
        let n = announced(s);
        let tail = parse(s.skip(4 + n));
        Parsed { frames: seq![s.subrange(4, 4 + n)] + tail.frames, rest: tail.rest, bad: tail.bad }
    }
}

/// The messages that frames hold; what does not decode is skipped.
pub open spec fn decoded(frames: Seq<Seq<u8>>) -> Seq<MsgV>
    decreases frames.len(),
{
    if frames.len() == 0 {
        Seq::empty()
    } else {
        match dec_msg_of(frames.last()) {
            Some(m) => decoded(frames.drop_last()).push(m),
            None => decoded(frames.drop_last()),
        }
    }
}

/// A list of messages as a sequence.
pub open spec fn msgs_view(msgs: Seq<Msg>) -> Seq<MsgV> {
    msgs.map_values(|m: Msg| m@)
}

/// A link. The faction it plays was settled when it was accepted and never changes.
pub struct Link {
    pub faction: usize,
    pub inbuf: Vec<u8>,
    pub outbuf: Vec<u8>,
    pub closed: bool,
}

/// A link with its buffers as sequences.
#[verifier::ext_equal]
pub struct LinkV {
    pub faction: usize,
    pub inbuf: Seq<u8>,
    pub outbuf: Seq<u8>,
    pub closed: bool,
}

impl View for Link {
    type V = LinkV;

    open spec fn view(&self) -> LinkV {
        LinkV {
            faction: self.faction,
            inbuf: self.inbuf@,
            outbuf: self.outbuf@,
            closed: self.closed,
        }
    }
}

/// Whether a link's queue has no room for some bytes.
pub open spec fn overfull(l: LinkV, bytes: Seq<u8>) -> bool {
    l.outbuf.len() + 4 + bytes.len() > MAX_OUTBUF
}

/// A link after a message was queued on it. A closed link takes nothing; one whose
/// queue would outgrow its cap is closed instead.
pub open spec fn after_send(l: LinkV, m: MsgV) -> LinkV {
    let bytes = enc_msg_of(m);
    if l.closed {
        l
    } else if overfull(l, bytes) {
        LinkV { closed: true, ..l }
    } else {
        LinkV { outbuf: l.outbuf + framed(bytes), ..l }
    }
}

impl Link {
    pub open spec fn wf(&self) -> bool {
        self.outbuf@.len() <= MAX_OUTBUF
    }

    pub fn new(faction: usize) -> (r: Link)
        ensures
            r.wf(),
            r.faction == faction,
            r.inbuf@.len() == 0,
            r.outbuf@.len() == 0,
            !r.closed,
    {
        Link { faction, inbuf: Vec::new(), outbuf: Vec::new(), closed: false }
    }

    /// Queues a message. A closed link takes nothing; one whose queue would outgrow its
    /// cap is closed instead.
    pub fn send(&mut self, m: &Msg)
        requires
            old(self).wf(),
        ensures
            final(self).wf(),
            final(self)@ == after_send(old(self)@, m@),
    {
        if self.closed {
            return;
        }
        let mut bytes = enc_msg(m);
        let n: usize = bytes.len();
        if n > MAX_OUTBUF || self.outbuf.len() + 4 + n > MAX_OUTBUF {
            self.closed = true;
            return;
        }
        let ghost o0 = self.outbuf@;
        let ghost payload = bytes@;
        let mut rest: usize = n;
        let mut i: usize = 0;
        while i < 4
            invariant
                i <= 4,
                self.faction == old(self).faction,
                self.inbuf@ == old(self).inbuf@,
                self.closed == old(self).closed,
                self.outbuf@ + le(rest as int, (4 - i) as nat) == o0 + le(n as int, 4),
            decreases 4 - i,
        {
            let ghost before = self.outbuf@;
            self.outbuf.push((rest % 256) as u8);
            proof {
                assert(before + le(rest as int, (4 - i) as nat) =~= self.outbuf@ + le(
                    rest as int / 256,
                    (4 - i - 1) as nat,
                ));
            }
            rest = rest / 256;
            i = i + 1;
        }
        proof {
            assert(self.outbuf@ + le(rest as int, 0) =~= self.outbuf@);
            lemma_le_len(n as int, 4);
        }
        self.outbuf.append(&mut bytes);
        proof {
            assert(self.outbuf@ =~= o0 + framed(payload));
        }
    }

    /// Notes that the socket took the first `n` queued bytes.
    pub fn wrote(&mut self, n: usize)
        requires
            old(self).wf(),
            n <= old(self).outbuf@.len(),
        ensures
            final(self).wf(),
            final(self).faction == old(self).faction,
            final(self).inbuf@ == old(self).inbuf@,
            final(self).closed == old(self).closed,
            final(self).outbuf@ == old(self).outbuf@.skip(n as int),
    {
        let rest = self.outbuf.split_off(n);
        self.outbuf = rest;
    }

    /// Notes that the socket is gone.
    pub fn hang_up(&mut self)
        requires
            old(self).wf(),
        ensures
            final(self).wf(),
            final(self).faction == old(self).faction,
            final(self).inbuf@ == old(self).inbuf@,
            final(self).outbuf@ == old(self).outbuf@,
            final(self).closed,
    {
        self.closed = true;
    }

    /// Takes in bytes that the socket delivered.
    pub fn receive(&mut self, bytes: &[u8])
        requires
            old(self).wf(),
        ensures
            final(self).wf(),
            final(self).faction == old(self).faction,
            final(self).inbuf@ == old(self).inbuf@ + bytes@,
            final(self).outbuf@ == old(self).outbuf@,
            final(self).closed == old(self).closed,
    {
        let ghost i0 = self.inbuf@;
        let mut i: usize = 0;
        assert(i0 + bytes@.take(0) =~= i0);
        while i < bytes.len()
            invariant
                i <= bytes@.len(),
                self.faction == old(self).faction,
                self.outbuf@ == old(self).outbuf@,
                self.closed == old(self).closed,
                self.inbuf@ == i0 + bytes@.take(i as int),
            decreases bytes@.len() - i,
        {
            self.inbuf.push(bytes[i]);
            proof {
                assert(i0 + bytes@.take(i + 1) =~= (i0 + bytes@.take(i as int)).push(bytes@[i as int]));
            }
            i = i + 1;
        }
        assert(bytes@.take(i as int) =~= bytes@);
    }

    /// Takes out every message that has come in whole. An oversized frame closes the
    /// link.
    pub fn take_messages(&mut self) -> (out: Vec<Msg>)
        requires
            old(self).wf(),
        ensures
            final(self).wf(),
            final(self).faction == old(self).faction,
            final(self).outbuf@ == old(self).outbuf@,
            ({
                let p = parse(old(self).inbuf@);
                &&& final(self).inbuf@ == p.rest
                &&& final(self).closed == (old(self).closed || p.bad)
                &&& msgs_view(out@) == decoded(p.frames)
            }),
    {
        let mut out: Vec<Msg> = Vec::new();
        let ghost all = parse(self.inbuf@);
        let ghost mut done: Seq<Seq<u8>> = Seq::empty();
        proof {
            assert(msgs_view(out@) =~= Seq::<MsgV>::empty());
            assert(done + parse(self.inbuf@).frames =~= all.frames);
        }
        loop
            invariant_except_break
                self.closed == old(self).closed,
                all.rest == parse(self.inbuf@).rest,
                all.bad == parse(self.inbuf@).bad,
                done + parse(self.inbuf@).frames == all.frames,
            invariant
                self.faction == old(self).faction,
                self.outbuf@ == old(self).outbuf@,
                all == parse(old(self).inbuf@),
                msgs_view(out@) == decoded(done),
            ensures
                self.inbuf@ == all.rest,
                self.closed == (old(self).closed || all.bad),
                done == all.frames,
            decreases self.inbuf@.len(),
        {
            let ghost s = self.inbuf@;
            if self.inbuf.len() < 4 {
                assert(done + parse(s).frames =~= done);
                break;
            }
            let mut r = Rdr::new(self.inbuf.as_slice());
            let len: u32 = match r.u32() {
                Some(v) => v,
                None => {
                    assert(done + parse(s).frames =~= done);
                    break;
                },
            };
            proof {
                assert(s.subrange(0, 4) =~= s.take(4));
                assert(len == announced(s));
            }
            if len > 65_536 {
                self.closed = true;
                self.inbuf.clear();
                assert(done + parse(s).frames =~= done);
                break;
            }
            let n: usize = len as usize;
            if self.inbuf.len() < 4 + n {
                assert(done + parse(s).frames =~= done);
                break;
            }
            let rest = self.inbuf.split_off(4 + n);
            let frame = self.inbuf.split_off(4);
            self.inbuf = rest;
            proof {
                assert(frame@ =~= s.subrange(4, 4 + n));
                assert(self.inbuf@ =~= s.skip(4 + n));
                let d2 = done.push(frame@);
                assert(d2 + parse(self.inbuf@).frames =~= done + parse(s).frames);
                assert(d2.drop_last() =~= done);
                done = d2;
            }
            let ghost before = out@;
            match dec_msg(frame.as_slice()) {
                Some(m) => {
                    out.push(m);
                    proof {
                        assert(msgs_view(out@) =~= msgs_view(before).push(m@));
                    }
                },
                None => {},
            }
        }
        out
    }
}

/// However a stream is cut into reads, the same frames come out: reading some bytes,
/// and later more, gives what reading them all at once gives.
pub proof fn frames_survive_chunking(s: Seq<u8>, t: Seq<u8>)
    requires
        !parse(s).bad,
    ensures
        parse(s + t).frames == parse(s).frames + parse(parse(s).rest + t).frames,
        parse(s + t).rest == parse(parse(s).rest + t).rest,
        parse(s + t).bad == parse(parse(s).rest + t).bad,
    decreases s.len(),
{
    let a = s + t;
    let n = announced(s);
    if s.len() < 4 {
        assert(parse(s).frames + parse(a).frames =~= parse(a).frames);
    } else {
        unle_roundtrip(s.take(4));
        assert(a.take(4) =~= s.take(4));
        if s.len() < 4 + n {
            assert(parse(s).frames + parse(a).frames =~= parse(a).frames);
        } else {
            frames_survive_chunking(s.skip(4 + n), t);
            assert(a.skip(4 + n) =~= s.skip(4 + n) + t);
            assert(a.subrange(4, 4 + n) =~= s.subrange(4, 4 + n));
            assert(parse(a).frames =~= parse(s).frames + parse(parse(s).rest + t).frames);
        }
    }
}

/// Payloads of legal size that are framed one after the other come out as they went
/// in, with nothing left over.
pub proof fn frames_roundtrip(payloads: Seq<Seq<u8>>)
    requires
        forall|i: int| 0 <= i < payloads.len() ==> (#[trigger] payloads[i]).len() <= MAX_FRAME,
    ensures
        parse(stream_of(payloads)) == (Parsed {
            frames: payloads,
            rest: Seq::<u8>::empty(),
            bad: false,
        }),
    decreases payloads.len(),
{
    let s = stream_of(payloads);
    if payloads.len() == 0 {
        assert(payloads =~= Seq::<Seq<u8>>::empty());
    } else {
        let head = payloads[0];
        let tail = payloads.drop_first();
        let n = head.len() as int;
        assert forall|i: int| 0 <= i < tail.len() implies (#[trigger] tail[i]).len() <= MAX_FRAME by {
            assert(tail[i] == payloads[i + 1]);
        }
        frames_roundtrip(tail);
        assert(pow256(4) == 0x1_0000_0000) by {
            reveal_with_fuel(pow256, 5);
        }
        le_roundtrip(n, 4);
        assert(s.take(4) =~= le(n, 4));
        assert(s.skip(4 + n) =~= stream_of(tail));
        assert(s.subrange(4, 4 + n) =~= head);
        assert(parse(s).frames =~= payloads);
    }
}

/// A message sent over a link that has room for it is the message that comes out at
/// the other end.
pub proof fn sent_is_received(m: MsgV)
    requires
        encodable_msg(m),
        enc_msg_of(m).len() <= MAX_FRAME,
    ensures
        decoded(parse(framed(enc_msg_of(m))).frames) == seq![m],
{
    let p = seq![enc_msg_of(m)];
    reveal_with_fuel(stream_of, 2);
    reveal_with_fuel(decoded, 2);
    frames_roundtrip(p);
    assert(p.drop_first() =~= Seq::<Seq<u8>>::empty());
    assert(stream_of(p) =~= framed(enc_msg_of(m)));
    msg_roundtrip(m);
    assert(p.drop_last() =~= Seq::<Seq<u8>>::empty());
    assert(decoded(p) =~= seq![m]);
}

// ---- what holds of a link -----------------------------------------------------------------------------

/// A message goes out with its length in front, in four bytes with the least first, behind what
/// is waiting already. A closed link takes nothing; and one that a megabyte would wait on is
/// closed.
pub proof fn messages_wait_their_turn(l: LinkV, m: MsgV)
    requires
        enc_msg_of(m).len() <= 65_536,
    ensures
        ({
            let b = enc_msg_of(m);
            let n = b.len() as int;
            let full = l.outbuf.len() + 4 + n > 1_048_576;
            let v = after_send(l, m);
            &&& l.closed ==> v == l
            &&& !l.closed && full ==> v.closed && v.outbuf == l.outbuf
            &&& !l.closed && !full ==> !v.closed && v.outbuf.take(l.outbuf.len() as int) == l.outbuf && v.outbuf.len()
                == l.outbuf.len() + 4 + n && v.outbuf.skip((l.outbuf.len() + 4) as int) == b && ({
                let at = l.outbuf.len() as int;
                v.outbuf[at] + 256 * v.outbuf[at + 1] + 65_536 * v.outbuf[at + 2] + 16_777_216 * v.outbuf[at + 3]
                    == n
            })
            &&& v.inbuf == l.inbuf && v.faction == l.faction
        }),
{
    let b = enc_msg_of(m);
    let n = b.len() as int;
    let v = after_send(l, m);
    if !l.closed && !(l.outbuf.len() + 4 + n > 1_048_576) {
        lemma_four(n);
        let k = l.outbuf.len() as int;
        assert(v.outbuf == l.outbuf + (le(n, 4) + b));
        assert(v.outbuf.take(k) =~= l.outbuf);
        assert(v.outbuf.skip(k + 4) =~= b);
        assert(v.outbuf[k] == le(n, 4)[0] && v.outbuf[k + 1] == le(n, 4)[1] && v.outbuf[k + 2] == le(n, 4)[2]
            && v.outbuf[k + 3] == le(n, 4)[3]);
    }
}

proof fn lemma_four(n: int)
    requires
        0 <= n <= u32::MAX,
    ensures
        le(n, 4).len() == 4,
        le(n, 4)[0] + 256 * le(n, 4)[1] + 65_536 * le(n, 4)[2] + 16_777_216 * le(n, 4)[3] == n,
{
    reveal_with_fuel(le, 5);
    let (a, b, c) = (n / 256, n / 256 / 256, n / 256 / 256 / 256);
    assert(n == 256 * a + n % 256 && a == 256 * b + a % 256 && b == 256 * c + b % 256);
    assert(0 <= c < 256);
}

/// What has not come in whole waits for the rest; a frame of over 65536 bytes is no frame of
/// ours, and ends the link.
pub proof fn halves_wait_and_giants_are_refused(s: Seq<u8>)
    ensures
        s.len() < 4 ==> parse(s).frames.len() == 0 && parse(s).rest == s && !parse(s).bad,
        s.len() >= 4 && announced(s) > 65_536 ==> parse(s).bad && parse(s).frames.len() == 0,
        s.len() >= 4 && 0 <= announced(s) <= 65_536 && s.len() < 4 + announced(s) ==> parse(s).frames.len() == 0
            && parse(s).rest == s && !parse(s).bad,
        s.len() >= 4 && 0 <= announced(s) <= 65_536 && s.len() >= 4 + announced(s) ==> parse(s).frames.len() > 0
            && parse(s).frames[0] == s.subrange(4, 4 + announced(s)),
{
}

/// What cannot be read is skipped, and the rest is read in its order.
pub proof fn unreadable_frames_are_skipped(frames: Seq<Seq<u8>>, f: Seq<u8>)
    ensures
        dec_msg_of(f) is Some ==> decoded(frames.push(f)) == decoded(frames).push(dec_msg_of(f)->0),
        dec_msg_of(f) is None ==> decoded(frames.push(f)) == decoded(frames),
        decoded(Seq::<Seq<u8>>::empty()).len() == 0,
{
    assert(frames.push(f).drop_last() =~= frames);
}

} // verus!
