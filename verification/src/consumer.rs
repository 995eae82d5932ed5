//! The stream consumer: one step per frame, and the loop over a whole
//! stream.
//!
//! A malformed frame is fatal to the run; an envelope of an unexpected
//! kind is noted and skipped.  The surrounding application awaits the
//! frames and calls the step for each; the loop here consumes a stream
//! already in hand, as the tests do.

use vstd::prelude::*;

use crate::decode::{decode_wrapper, parse_message};
use crate::dispatch::SubscriptionKind;
use crate::envelope::{MessageView, MessageWrapper};

verus! {

/// An error that ends the run.
#[derive(Clone, Copy, Debug, PartialEq, Eq, Structural)]
pub enum StreamError {
    /// The transport failed mid-stream.
    Transport,
    /// A frame was not the byte form of any envelope.
    Decode,
}

/// Whether an envelope carries the event kind a subscription expects.
pub open spec fn frame_matches(kind: SubscriptionKind, m: MessageView) -> bool {
    match m {
        MessageView::Transaction(_) => kind == SubscriptionKind::Transactions || kind
            == SubscriptionKind::WalletTransactions,
        MessageView::SlotStatus(_) => kind == SubscriptionKind::Slots,
        MessageView::AccountUpdate(_) => kind == SubscriptionKind::AccountUpdates,
        MessageView::Unknown => false,
    }
}

/// What one frame of the stream produced.
#[derive(Clone, Debug)]
pub enum FrameOutcome {
    /// The expected event, to be formatted and logged.
    Event(MessageWrapper),
    /// An envelope of another kind, or an empty one: noted and skipped.
    Skipped(MessageWrapper),
}

/// Handle one frame: a malformed frame ends the run; an envelope of
/// the expected kind is handed on; any other envelope is only noted.
pub fn process_frame(kind: SubscriptionKind, data: &[u8]) -> (r: Result<
    FrameOutcome,
    StreamError,
>)
    ensures
        match decode_wrapper(data@) {
            Option::Some(m) => match r {
                Ok(FrameOutcome::Event(w)) => w@ == m && frame_matches(kind, m),
                Ok(FrameOutcome::Skipped(w)) => w@ == m && !frame_matches(kind, m),
                Err(_) => false,
            },
            Option::None => r == Err::<FrameOutcome, StreamError>(StreamError::Decode),
        },
{
    match parse_message(data) {
        Err(_) => Err(StreamError::Decode),
        Ok(w) => {
            let hit = match &w {
                MessageWrapper::Transaction(_) => kind == SubscriptionKind::Transactions || kind
                    == SubscriptionKind::WalletTransactions,
                MessageWrapper::SlotStatus(_) => kind == SubscriptionKind::Slots,
                MessageWrapper::AccountUpdate(_) => kind == SubscriptionKind::AccountUpdates,
                MessageWrapper::Unknown => false,
            };
            if hit {
                Ok(FrameOutcome::Event(w))
            } else {
                Ok(FrameOutcome::Skipped(w))
            }
        },
    }
}

/// What a whole stream leaves behind: the expected events in arrival
/// order, how many envelopes were skipped, and the error that ended
/// the run, if one did.  Frames after a malformed one are never
/// reached.
pub open spec fn consume_spec(kind: SubscriptionKind, frames: Seq<Seq<u8>>) -> (
    Seq<MessageView>,
    nat,
    Option<StreamError>,
)
    decreases frames.len(),
{
    if frames.len() == 0 {
        (Seq::empty(), 0nat, None)
    } else {
        match decode_wrapper(frames[0]) {
            Option::None => (Seq::empty(), 0nat, Some(StreamError::Decode)),
            Option::Some(m) => {
                let (evs, sk, err) = consume_spec(kind, frames.skip(1));
                if frame_matches(kind, m) {
                    (seq![m] + evs, sk, err)
                } else {
                    (evs, (sk + 1) as nat, err)
                }
            },
        }
    }
}

/// What consuming a stream leaves behind.
#[derive(Clone, Debug)]
pub struct ConsumeResult {
    /// The events of the expected kind, in arrival order.
    pub events: Vec<MessageWrapper>,
    /// How many envelopes of other kinds were noted and skipped.
    pub skipped: usize,
    /// The error that ended the run early, if one did.
    pub error: Option<StreamError>,
}

/// Consume a stream of frames in order: collect the events of the
/// expected kind, note the others, and stop at the first malformed
/// frame.
pub fn consume_stream(kind: SubscriptionKind, frames: &Vec<Vec<u8>>) -> (r: ConsumeResult)
    ensures
        ({
            let (evs, sk, err) = consume_spec(
                kind,
                frames@.map_values(|f: Vec<u8>| f@),
            );
            r.events@.map_values(|w: MessageWrapper| w@) == evs && r.skipped == sk && r.error
                == err
        }),
{
    let ghost fseq = frames@.map_values(|f: Vec<u8>| f@);
    let mut events: Vec<MessageWrapper> = Vec::new();
    let mut skipped: usize = 0;
    let mut i: usize = 0;
    let n = frames.len();
    proof {
        assert(events@.map_values(|w: MessageWrapper| w@) =~= Seq::<MessageView>::empty());
        assert(fseq.skip(0) =~= fseq);
    }
    while i < n
        invariant
            i <= n,
            n == frames.len(),
            skipped <= i,
            fseq == frames@.map_values(|f: Vec<u8>| f@),
            ({
                let (evs, sk, err) = consume_spec(kind, fseq.skip(i as int));
                consume_spec(kind, fseq) == (
                    (events@.map_values(|w: MessageWrapper| w@) + evs),
                    (skipped + sk) as nat,
                    err,
                )
            }),
        decreases n - i,
    {
        let ghost evsv = events@.map_values(|w: MessageWrapper| w@);
        let ghost tail = fseq.skip(i as int);
        proof {
            assert(tail[0] == fseq[i as int]);
            assert(tail.skip(1) =~= fseq.skip(i as int + 1));
        }
        match process_frame(kind, frames[i].as_slice()) {
            Err(e) => {
                proof {
                    assert(fseq[i as int] == frames@[i as int]@);
                    assert(decode_wrapper(tail[0]) is None);
                }
                return ConsumeResult { events, skipped, error: Some(e) };
            },
            Ok(FrameOutcome::Event(w)) => {
                proof {
                    assert(fseq[i as int] == frames@[i as int]@);
                }
                events.push(w);
                proof {
                    assert(events@.map_values(|x: MessageWrapper| x@) =~= evsv + seq![w@]);
                    let (evs2, sk2, err2) = consume_spec(kind, fseq.skip(i as int + 1));
                    assert(consume_spec(kind, tail) == (
                        (seq![w@] + evs2),
                        sk2,
                        err2,
                    ));
                    assert(evsv + (seq![w@] + evs2) =~= (evsv + seq![w@]) + evs2);
                }
                i = i + 1;
            },
            Ok(FrameOutcome::Skipped(w)) => {
                proof {
                    assert(fseq[i as int] == frames@[i as int]@);
                    let (evs2, sk2, err2) = consume_spec(kind, fseq.skip(i as int + 1));
                    assert(consume_spec(kind, tail) == (evs2, (sk2 + 1) as nat, err2));
                }
                skipped = skipped + 1;
                i = i + 1;
            },
        }
    }
    proof {
        assert(fseq.skip(n as int) =~= Seq::<Seq<u8>>::empty());
        let evsv = events@.map_values(|w: MessageWrapper| w@);
        assert(evsv + Seq::<MessageView>::empty() =~= evsv);
    }
    ConsumeResult { events, skipped, error: None }
}

} // verus!
