//! What comes out of a stream of frames, however it is cut.

use vstd::prelude::*;
use crate::protocol::{
    DecodeErrorKind, FrameDecoderView, FrameView, frame_bytes,
    frame_prefix_is_incomplete, frame_round_trip,
};

verus! {

/// A frame that a decoder with this limit takes.
pub open spec fn acceptable(frame: FrameView, max_frame_bytes: usize) -> bool {
    1 <= frame.kind <= 3 && frame.payload.len() <= max_frame_bytes && frame.payload.len()
        <= u32::MAX
}

/// The bytes of the first `n` frames, one after the other.
pub open spec fn stream_of(frames: Seq<FrameView>, n: int) -> Seq<u8>
    decreases n,
{
    if n <= 0 {
        Seq::empty()
    } else {
        stream_of(frames, n - 1) + frame_bytes(frames[n - 1].kind, frames[n - 1].payload)
    }
}

/// All bytes of some frames.
pub open spec fn whole_stream(frames: Seq<FrameView>) -> Seq<u8> {
    stream_of(frames, frames.len() as int)
}

/// What happens to a decoder: bytes come, or the next frame is asked for.
pub enum StreamEvent {
    Feed(Seq<u8>),
    Decode,
}

/// A decoder, and the frames that came out of it so far.
#[verifier::ext_equal]
pub struct Received {
    pub decoder: FrameDecoderView,
    pub frames: Seq<FrameView>,
}

impl Received {
    /// One event: bytes are kept behind those that wait, and a whole frame is
    /// taken out when it is asked for.
    pub open spec fn after(self, event: StreamEvent) -> Received {
        match event {
            StreamEvent::Feed(bytes) => Received {
                decoder: FrameDecoderView {
                    buffer: self.decoder.buffer + bytes,
                    ..self.decoder
                },
                ..self
            },
            StreamEvent::Decode => match self.decoder.frame() {
                Ok(Some(frame)) => Received {
                    decoder: self.decoder.behind(frame),
                    frames: self.frames.push(frame),
                },
                _ => self,
            },
        }
    }

    /// The first `n` events, in order.
    pub open spec fn after_all(self, events: Seq<StreamEvent>, n: int) -> Received
        decreases n,
    {
        if n <= 0 {
            self
        } else {
            self.after_all(events, n - 1).after(events[n - 1])
        }
    }

    /// The first frames of a stream came out in order, and the bytes that have
    /// come since wait.
    pub open spec fn follows(self, sent: Seq<FrameView>, fed: int) -> bool {
        let taken = self.frames.len() as int;
        &&& self.frames.len() <= sent.len()
        &&& self.frames == sent.take(taken)
        &&& stream_of(sent, taken).len() <= fed <= whole_stream(sent).len()
        &&& self.decoder.buffer == whole_stream(sent).subrange(
            stream_of(sent, taken).len() as int,
            fed,
        )
    }
}

/// The bytes that the first `n` events bring.
pub open spec fn fed_by(events: Seq<StreamEvent>, n: int) -> Seq<u8>
    decreases n,
{
    if n <= 0 {
        Seq::empty()
    } else {
        match events[n - 1] {
            StreamEvent::Feed(bytes) => fed_by(events, n - 1) + bytes,
            StreamEvent::Decode => fed_by(events, n - 1),
        }
    }
}

proof fn streams_grow(frames: Seq<FrameView>, m: int, n: int)
    requires
        0 <= m <= n <= frames.len(),
    ensures
        stream_of(frames, m).len() <= stream_of(frames, n).len(),
        stream_of(frames, n).take(stream_of(frames, m).len() as int) == stream_of(frames, m),
    decreases n,
{
    if m < n {
        streams_grow(frames, m, n - 1);
        let short = stream_of(frames, n - 1);
        let long = stream_of(frames, n);
        let len = stream_of(frames, m).len() as int;
        assert(long.take(len) =~= short.take(len));
    } else {
        assert(stream_of(frames, n).take(stream_of(frames, m).len() as int) =~= stream_of(
            frames,
            m,
        ));
    }
}

/// While a frame of the stream is incomplete nothing comes out and nothing
/// changes; once it is complete it comes out whole, and its bytes are gone.
pub proof fn next_frame_comes_when_complete(
    received: Received,
    sent: Seq<FrameView>,
    fed: int,
    max_frame_bytes: usize,
)
    requires
        received.follows(sent, fed),
        received.decoder.max_frame_bytes == max_frame_bytes,
        forall|i: int| 0 <= i < sent.len() ==> acceptable(#[trigger] sent[i], max_frame_bytes),
    ensures
        ({
            let taken = received.frames.len() as int;
            let after = received.after(StreamEvent::Decode);
            if taken < sent.len() && stream_of(sent, taken + 1).len() <= fed {
                &&& received.decoder.frame() == Ok::<Option<FrameView>, DecodeErrorKind>(
                    Some(sent[taken]),
                )
                &&& after.frames == sent.take(taken + 1)
                &&& after.follows(sent, fed)
                &&& received.decoder.buffer.len() - after.decoder.buffer.len() == frame_bytes(
                    sent[taken].kind,
                    sent[taken].payload,
                ).len()
            } else {
                &&& received.decoder.frame() == Ok::<Option<FrameView>, DecodeErrorKind>(None)
                &&& after == received
            }
        }),
{
    let taken = received.frames.len() as int;
    let all = whole_stream(sent);
    let start = stream_of(sent, taken).len() as int;
    let buffer = received.decoder.buffer;
    if taken < sent.len() {
        let frame = sent[taken];
        assert(acceptable(frame, max_frame_bytes));
        let bytes = frame_bytes(frame.kind, frame.payload);
        streams_grow(sent, taken, taken + 1);
        streams_grow(sent, taken + 1, sent.len() as int);
        let end = stream_of(sent, taken + 1).len() as int;
        assert(end == start + bytes.len());
        assert(all.subrange(start, end) =~= bytes) by {
            assert(all.take(end) == stream_of(sent, taken + 1));
            assert(all.subrange(start, end) =~= all.take(end).subrange(start, end));
            assert(stream_of(sent, taken + 1).subrange(start, end) =~= bytes);
        }
        if end <= fed {
            let rest = all.subrange(end, fed);
            assert(buffer =~= bytes + rest) by {
                assert(all.subrange(start, fed) =~= all.subrange(start, end) + all.subrange(
                    end,
                    fed,
                ));
            }
            frame_round_trip(frame.kind, frame.payload, rest, max_frame_bytes);
            assert(sent.take(taken + 1) =~= sent.take(taken).push(frame));
        } else {
            frame_round_trip(frame.kind, frame.payload, Seq::empty(), max_frame_bytes);
            assert(buffer =~= bytes.take(fed - start)) by {
                assert(all.subrange(start, fed) =~= all.subrange(start, end).take(fed - start));
            }
            frame_prefix_is_incomplete(frame.kind, frame.payload, fed - start, max_frame_bytes);
        }
    } else {
        assert(buffer.len() == 0);
    }
}

/// A stream of frames comes out in order, each frame once, however the stream is
/// cut and whenever frames are asked for. After every event the frames that came
/// out are the first of the stream, and the bytes behind them wait.
pub proof fn streams_decode_in_order(
    received: Received,
    sent: Seq<FrameView>,
    events: Seq<StreamEvent>,
    n: int,
)
    requires
        0 <= n <= events.len(),
        received.decoder.buffer.len() == 0,
        received.frames.len() == 0,
        forall|i: int|
            0 <= i < sent.len() ==> acceptable(
                #[trigger] sent[i],
                received.decoder.max_frame_bytes,
            ),
        fed_by(events, n).len() <= whole_stream(sent).len(),
        fed_by(events, n) == whole_stream(sent).take(fed_by(events, n).len() as int),
    ensures
        received.after_all(events, n).follows(sent, fed_by(events, n).len() as int),
        received.after_all(events, n).decoder.max_frame_bytes == received.decoder.max_frame_bytes,
    decreases n,
{
    let all = whole_stream(sent);
    if n <= 0 {
        assert(received.frames =~= sent.take(0));
        assert(received.decoder.buffer =~= all.subrange(0, 0));
    } else {
        let fed = fed_by(events, n);
        let before = fed_by(events, n - 1);
        assert(before =~= all.take(before.len() as int)) by {
            assert(before =~= fed.take(before.len() as int));
        }
        streams_decode_in_order(received, sent, events, n - 1);
        let earlier = received.after_all(events, n - 1);
        match events[n - 1] {
            StreamEvent::Feed(bytes) => {
                assert(bytes =~= all.subrange(before.len() as int, fed.len() as int)) by {
                    assert(bytes =~= fed.subrange(before.len() as int, fed.len() as int));
                }
                let start = stream_of(sent, earlier.frames.len() as int).len() as int;
                assert(earlier.decoder.buffer + bytes =~= all.subrange(start, fed.len() as int));
            },
            StreamEvent::Decode => {
                next_frame_comes_when_complete(
                    earlier,
                    sent,
                    before.len() as int,
                    received.decoder.max_frame_bytes,
                );
            },
        }
    }
}

/// Once the whole stream has come and every frame was taken out, nothing waits.
pub proof fn nothing_is_left_of_a_stream(received: Received, sent: Seq<FrameView>)
    requires
        received.follows(sent, whole_stream(sent).len() as int),
        received.frames.len() == sent.len(),
    ensures
        received.frames == sent,
        received.decoder.buffer.len() == 0,
{
    assert(sent.take(sent.len() as int) =~= sent);
}

} // verus!
