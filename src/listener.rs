use vstd::prelude::*;
use std::collections::VecDeque;
use crate::frame::{frame_of, Frame};
use crate::recorder::{feed, model_wf, initial_model, FrameRecorder, RecorderModel};

verus! {

/// The character that a received byte stands for (its Latin-1 code point).
pub open spec fn byte_char(b: u8) -> char {
    b as char
}

/// The characters that received bytes stand for.
pub open spec fn byte_chars(bs: Seq<u8>) -> Seq<char> {
    bs.map_values(|b: u8| byte_char(b))
}

/// The readings decoded from frame bodies, in order; bodies that do not
/// decode are left out.
pub open spec fn decoded(bodies: Seq<Seq<char>>) -> Seq<Frame>
    decreases bodies.len(),
{
    if bodies.len() == 0 {
        Seq::empty()
    } else {
        let d = decoded(bodies.drop_last());
        match frame_of(bodies.last()) {
            Ok(f) => d.push(f),
            Err(_) => d,
        }
    }
}

/// What a bounded-wait read of the byte source came back with.
pub enum ReadEvent {
    /// These bytes arrived (possibly none).
    Bytes(Vec<u8>),
    /// The wait ended with no data.
    TimedOut,
    /// The source failed for good.
    Failed,
}

/// What the sequence of readings does next.
#[derive(Clone, Copy, Debug, PartialEq, Eq, Structural)]
pub enum Action {
    /// Hand out this reading.
    Deliver(Frame),
    /// Read from the byte source, and report what came back.
    Read,
    /// Hand out the read error that was just reported.
    Fail,
    /// The sequence is over: the source failed earlier.
    End,
}

/// The abstract content of an incoming-frame sequence.
pub struct IncomingModel {
    pub recorder: RecorderModel,
    pub pending: Seq<Frame>,
    pub failed: bool,
}

/// The model of a fresh sequence.
pub open spec fn initial_incoming() -> IncomingModel {
    IncomingModel { recorder: initial_model(), pending: Seq::empty(), failed: false }
}

/// The model after `bytes` arrived: the recorder has read them, and the
/// readings decoded from the bodies they complete are queued behind the others.
pub open spec fn after_bytes(m: IncomingModel, bytes: Seq<u8>) -> IncomingModel {
    let (r, bodies) = feed(m.recorder, byte_chars(bytes));
    IncomingModel { recorder: r, pending: m.pending + decoded(bodies), failed: m.failed }
}

/// The next action, and the model after it: the oldest queued reading first;
/// with none queued, a read, unless the source has failed.
pub open spec fn next_action_spec(m: IncomingModel) -> (IncomingModel, Action) {
    if m.pending.len() > 0 {
        (IncomingModel { pending: m.pending.drop_first(), ..m }, Action::Deliver(m.pending[0]))
    } else if m.failed {
        (m, Action::End)
    } else {
        (m, Action::Read)
    }
}

/// Reported read outcomes, in the model.
pub enum ReadOutcome {
    Bytes(Seq<u8>),
    TimedOut,
    Failed,
}

/// The outcome that an event reports.
pub open spec fn outcome_of(ev: ReadEvent) -> ReadOutcome {
    match ev {
        ReadEvent::Bytes(b) => ReadOutcome::Bytes(b@),
        ReadEvent::TimedOut => ReadOutcome::TimedOut,
        ReadEvent::Failed => ReadOutcome::Failed,
    }
}

/// The model and the next action after a read reported `ev`: bytes are
/// recorded and then the next action is taken; a timeout changes nothing; a
/// failure is handed out once and ends the sequence.
pub open spec fn on_read_spec(m: IncomingModel, ev: ReadOutcome) -> (IncomingModel, Action) {
    match ev {
        ReadOutcome::Bytes(b) => next_action_spec(after_bytes(m, b)),
        ReadOutcome::TimedOut => next_action_spec(m),
        ReadOutcome::Failed => (IncomingModel { failed: true, ..m }, Action::Fail),
    }
}

/// The decisions of a sequence of readings taken from a byte source: the
/// recorder that frames the bytes, the readings not yet handed out, and
/// whether the source has failed.
pub struct Incoming {
    recorder: FrameRecorder,
    frame_buffer: VecDeque<Frame>,
    failed: bool,
}

impl View for Incoming {
    type V = IncomingModel;

    closed spec fn view(&self) -> IncomingModel {
        IncomingModel { recorder: self.recorder@, pending: self.frame_buffer@, failed: self.failed }
    }
}

impl Incoming {
    /// The recorder is in a reachable state.
    pub open spec fn wf(&self) -> bool {
        model_wf(self@.recorder)
    }

    /// A sequence that has read nothing yet.
    pub fn new() -> (r: Incoming)
        ensures
            r@ == initial_incoming(),
            r.wf(),
    {
        Incoming { recorder: FrameRecorder::new(), frame_buffer: VecDeque::new(), failed: false }
    }

    /// Records received bytes and queues the readings decoded from the frame
    /// bodies they complete.
    pub fn accept_bytes(&mut self, bytes: &[u8])
        requires
            old(self).wf(),
        ensures
            final(self).wf(),
            final(self)@ == after_bytes(old(self)@, bytes@),
    {
        let ghost start = self@;
        let ghost chars = byte_chars(bytes@);
        let mut i: usize = 0;
        while i < bytes.len()
            invariant
                self.wf(),
                i <= bytes@.len(),
                chars == byte_chars(bytes@),
                self@.failed == start.failed,
                self@.recorder == feed(start.recorder, chars.subrange(0, i as int)).0,
                self@.pending == start.pending + decoded(feed(start.recorder, chars.subrange(0, i as int)).1),
            decreases bytes.len() - i,
        {
            let c = bytes[i] as char;
            let ghost before = feed(start.recorder, chars.subrange(0, i as int));
            let ghost pending_before = self@.pending;
            proof {
                assert(chars.subrange(0, i + 1).drop_last() =~= chars.subrange(0, i as int));
                assert(chars.subrange(0, i + 1).last() == c);
            }
            match self.recorder.push(c) {
                Some(body) => {
                    proof {
                        assert(before.1.push(body@).drop_last() =~= before.1);
                    }
                    match Frame::from_str(body.as_str()) {
                        Ok(f) => {
                            self.frame_buffer.push_back(f);
                            assert(self@.pending =~= start.pending + decoded(before.1).push(f));
                        },
                        Err(_) => {},
                    }
                },
                None => {},
            }
            i = i + 1;
        }
        assert(chars.subrange(0, i as int) =~= chars);
    }

    /// Takes the next action: hands out the oldest queued reading; with none
    /// queued, asks for a read, unless the source has failed.
    pub fn next_action(&mut self) -> (r: Action)
        requires
            old(self).wf(),
        ensures
            final(self).wf(),
            (final(self)@, r) == next_action_spec(old(self)@),
    {
        match self.frame_buffer.pop_front() {
            Some(f) => Action::Deliver(f),
            None => {
                if self.failed {
                    Action::End
                } else {
                    Action::Read
                }
            },
        }
    }

    /// Takes what a read reported, and then the next action.
    pub fn on_read(&mut self, ev: ReadEvent) -> (r: Action)
        requires
            old(self).wf(),
        ensures
            final(self).wf(),
            (final(self)@, r) == on_read_spec(old(self)@, outcome_of(ev)),
    {
        match ev {
            ReadEvent::Bytes(b) => {
                self.accept_bytes(b.as_slice());
                self.next_action()
            },
            ReadEvent::TimedOut => self.next_action(),
            ReadEvent::Failed => {
                self.failed = true;
                Action::Fail
            },
        }
    }
}

/// A read that timed out yields no reading and does not end the sequence:
/// the sequence stays as it was, and, with nothing queued, reads again.
pub proof fn lemma_timeout_changes_nothing(m: IncomingModel)
    requires
        !m.failed,
    ensures
        on_read_spec(m, ReadOutcome::TimedOut) == next_action_spec(m),
        !on_read_spec(m, ReadOutcome::TimedOut).0.failed,
        on_read_spec(m, ReadOutcome::TimedOut).1 != Action::End,
        on_read_spec(m, ReadOutcome::TimedOut).1 != Action::Fail,
        m.pending.len() == 0 ==> on_read_spec(m, ReadOutcome::TimedOut) == (m, Action::Read),
{
}

/// A failed read is handed out once, as the very next item; from then on
/// the sequence neither reads nor fails again, whatever else it hands out.
pub proof fn lemma_failure_reported_once(m: IncomingModel)
    ensures
        on_read_spec(m, ReadOutcome::Failed).1 == Action::Fail,
        on_read_spec(m, ReadOutcome::Failed).0.failed,
        on_read_spec(m, ReadOutcome::Failed).0.pending == m.pending,
        forall|n: IncomingModel|
            #![trigger next_action_spec(n)]
            n.failed ==> next_action_spec(n).0.failed && next_action_spec(n).1 != Action::Read
                && next_action_spec(n).1 != Action::Fail,
{
}

proof fn lemma_decoded_append(x: Seq<Seq<char>>, y: Seq<Seq<char>>)
    ensures
        decoded(x + y) == decoded(x) + decoded(y),
    decreases y.len(),
{
    if y.len() == 0 {
        assert(x + y =~= x);
        assert(decoded(x) + decoded(y) =~= decoded(x));
    } else {
        lemma_decoded_append(x, y.drop_last());
        assert((x + y).drop_last() =~= x + y.drop_last());
        assert((x + y).last() == y.last());
        match frame_of(y.last()) {
            Ok(f) => {
                assert(decoded(x) + decoded(y.drop_last()).push(f) =~= (decoded(x) + decoded(y.drop_last())).push(f));
            },
            Err(_) => {},
        }
    }
}

/// How the source splits its bytes into reads does not matter: receiving
/// `a` and then `b` leaves the sequence as receiving `a + b` at once does,
/// with the same readings queued in the same order.
pub proof fn lemma_read_boundaries_invariant(m: IncomingModel, a: Seq<u8>, b: Seq<u8>)
    ensures
        after_bytes(after_bytes(m, a), b) == after_bytes(m, a + b),
{
    assert(byte_chars(a + b) =~= byte_chars(a) + byte_chars(b));
    crate::recorder::lemma_feed_append(m.recorder, byte_chars(a), byte_chars(b));
    let (r1, o1) = feed(m.recorder, byte_chars(a));
    let (r2, o2) = feed(r1, byte_chars(b));
    lemma_decoded_append(o1, o2);
    assert(m.pending + decoded(o1) + decoded(o2) =~= m.pending + (decoded(o1) + decoded(o2)));
}

} // verus!
