use vstd::prelude::*;
use crate::text::chars_of;

verus! {

/// The characters that open a frame: `"OK 9 "`.
pub open spec fn preamble() -> Seq<char> {
    seq!['O', 'K', ' ', '9', ' ']
}

/// The characters that close a frame: `"\r\n"`.
pub open spec fn terminator() -> Seq<char> {
    seq!['\r', '\n']
}

/// States of the frame recorder's delimiter automaton.
#[derive(Clone, Copy, Debug, PartialEq, Eq, Structural)]
pub enum FrameRecorderState {
    /// Waiting for the first preamble character.
    NotRecording,
    /// The preamble has matched up to and including this index.
    Activating(usize),
    /// Inside a frame body.
    Recording,
    /// The terminator has matched up to and including this index.
    Terminating(usize),
}

/// The abstract content of a recorder: its automaton state and the text
/// captured so far.
pub struct RecorderModel {
    pub state: FrameRecorderState,
    pub buffer: Seq<char>,
}

/// The model of a fresh recorder.
pub open spec fn initial_model() -> RecorderModel {
    RecorderModel { state: FrameRecorderState::NotRecording, buffer: Seq::empty() }
}

/// The states and buffers that the automaton can reach.
pub open spec fn model_wf(m: RecorderModel) -> bool {
    match m.state {
        FrameRecorderState::NotRecording => m.buffer.len() == 0,
        FrameRecorderState::Activating(l) => l < preamble().len() - 1 && m.buffer.len() == 0,
        FrameRecorderState::Recording => true,
        FrameRecorderState::Terminating(l) => l < terminator().len() - 1 && m.buffer.len() > 0
            && m.buffer.last() == terminator()[0],
    }
}

/// One character fed to the automaton: the next model, and the frame body
/// completed by this character, if any.
pub open spec fn step(m: RecorderModel, c: char) -> (RecorderModel, Option<Seq<char>>) {
    match m.state {
        FrameRecorderState::NotRecording => {
            if c == preamble()[0] {
                (RecorderModel { state: FrameRecorderState::Activating(0), ..m }, None)
            } else {
                (m, None)
            }
        },
        FrameRecorderState::Activating(l) => {
            if c == preamble()[l + 1] {
                if l + 1 >= preamble().len() - 1 {
                    (RecorderModel { state: FrameRecorderState::Recording, ..m }, None)
                } else {
                    (RecorderModel { state: FrameRecorderState::Activating((l + 1) as usize), ..m }, None)
                }
            } else {
                (RecorderModel { state: FrameRecorderState::NotRecording, ..m }, None)
            }
        },
        FrameRecorderState::Recording => {
            if c == terminator()[0] {
                (RecorderModel { state: FrameRecorderState::Terminating(0), buffer: m.buffer.push(c) }, None)
            } else {
                (RecorderModel { state: FrameRecorderState::Recording, buffer: m.buffer.push(c) }, None)
            }
        },
        FrameRecorderState::Terminating(l) => {
            let b = m.buffer.push(c);
            if c == terminator()[l + 1] {
                if l + 1 >= terminator().len() - 1 {
                    (initial_model(), Some(b.subrange(0, b.len() - terminator().len())))
                } else {
                    (RecorderModel { state: FrameRecorderState::Terminating((l + 1) as usize), buffer: b }, None)
                }
            } else {
                (RecorderModel { state: FrameRecorderState::Recording, buffer: b }, None)
            }
        },
    }
}

/// A sequence of characters fed one at a time: the final model and the frame
/// bodies completed on the way, in order.
pub open spec fn feed(m: RecorderModel, cs: Seq<char>) -> (RecorderModel, Seq<Seq<char>>)
    decreases cs.len(),
{
    if cs.len() == 0 {
        (m, Seq::empty())
    } else {
        let (m1, out1) = feed(m, cs.drop_last());
        let (m2, o) = step(m1, cs.last());
        match o {
            Some(body) => (m2, out1.push(body)),
            None => (m2, out1),
        }
    }
}

/// The successor state along the delimiters, for a preamble of
/// `len_activation` and a terminator of `len_termination` characters.
pub open spec fn next_state(s: FrameRecorderState, len_activation: usize, len_termination: usize) -> FrameRecorderState {
    match s {
        FrameRecorderState::NotRecording => FrameRecorderState::Activating(0),
        FrameRecorderState::Activating(l) => {
            if l + 1 >= len_activation - 1 {
                FrameRecorderState::Recording
            } else {
                FrameRecorderState::Activating((l + 1) as usize)
            }
        },
        FrameRecorderState::Recording => FrameRecorderState::Terminating(0),
        FrameRecorderState::Terminating(l) => {
            if l + 1 >= len_termination - 1 {
                FrameRecorderState::NotRecording
            } else {
                FrameRecorderState::Terminating((l + 1) as usize)
            }
        },
    }
}

impl FrameRecorderState {
    /// Moves one position forward along the delimiters.
    pub fn next(&mut self, len_activation: usize, len_termination: usize)
        requires
            len_activation >= 1,
            len_termination >= 1,
            match *old(self) {
                FrameRecorderState::Activating(l) => l < usize::MAX,
                FrameRecorderState::Terminating(l) => l < usize::MAX,
                _ => true,
            },
        ensures
            *final(self) == next_state(*old(self), len_activation, len_termination),
    {
        match *self {
            FrameRecorderState::NotRecording => *self = FrameRecorderState::Activating(0),
            FrameRecorderState::Activating(level) => {
                let level = level + 1;
                if level >= len_activation - 1 {
                    *self = FrameRecorderState::Recording;
                } else {
                    *self = FrameRecorderState::Activating(level);
                }
            },
            FrameRecorderState::Recording => *self = FrameRecorderState::Terminating(0),
            FrameRecorderState::Terminating(level) => {
                let level = level + 1;
                if level >= len_termination - 1 {
                    *self = FrameRecorderState::NotRecording;
                } else {
                    *self = FrameRecorderState::Terminating(level);
                }
            },
        }
    }
}

/// The number of characters in the preamble.
pub const PREAMBLE_LEN: usize = 5;

/// The number of characters in the terminator.
pub const TERMINATOR_LEN: usize = 2;

/// The preamble character at index `i`.
fn preamble_char(i: usize) -> (c: char)
    requires
        i < PREAMBLE_LEN,
    ensures
        c == preamble()[i as int],
{
    match i {
        0 => 'O',
        1 => 'K',
        2 => ' ',
        3 => '9',
        _ => ' ',
    }
}

/// The terminator character at index `i`.
fn terminator_char(i: usize) -> (c: char)
    requires
        i < TERMINATOR_LEN,
    ensures
        c == terminator()[i as int],
{
    if i == 0 {
        '\r'
    } else {
        '\n'
    }
}

/// Relies on String::push: the string grows by exactly that character.
#[verifier::external_body]
fn push_char(s: &mut String, c: char)
    ensures
        final(s)@ == old(s)@.push(c),
{
    s.push(c)
}

/// A string of the first `n` characters of `v`.
fn string_of_prefix(v: &Vec<char>, n: usize) -> (r: String)
    requires
        n <= v@.len(),
    ensures
        r@ == v@.subrange(0, n as int),
{
    let mut r = String::new();
    let mut i: usize = 0;
    while i < n
        invariant
            i <= n <= v@.len(),
            r@ == v@.subrange(0, i as int),
        decreases n - i,
    {
        push_char(&mut r, v[i]);
        i = i + 1;
        assert(r@ =~= v@.subrange(0, i as int));
    }
    r
}

/// The completed frame body that an optional string stands for.
pub open spec fn body_view(r: Option<String>) -> Option<Seq<char>> {
    match r {
        Some(s) => Some(s@),
        None => None,
    }
}

/// Records frame bodies from a stream of characters.
pub struct FrameRecorder {
    buffer: Vec<char>,
    state: FrameRecorderState,
}

impl View for FrameRecorder {
    type V = RecorderModel;

    closed spec fn view(&self) -> RecorderModel {
        RecorderModel { state: self.state, buffer: self.buffer@ }
    }
}

impl FrameRecorder {
    /// The recorder is in a state that its automaton can reach.
    pub open spec fn wf(&self) -> bool {
        model_wf(self@)
    }

    /// A recorder that has seen nothing yet.
    pub fn new() -> (r: FrameRecorder)
        ensures
            r@ == initial_model(),
            r.wf(),
    {
        let r = FrameRecorder { buffer: Vec::new(), state: FrameRecorderState::NotRecording };
        assert(r@.buffer =~= Seq::<char>::empty());
        r
    }

    /// Feeds one character; returns the frame body that it completes, if any.
    pub fn push(&mut self, c: char) -> (r: Option<String>)
        requires
            old(self).wf(),
        ensures
            final(self).wf(),
            final(self)@ == step(old(self)@, c).0,
            body_view(r) == step(old(self)@, c).1,
    {
        proof {
            lemma_step_wf(self@, c);
        }
        match self.state {
            FrameRecorderState::NotRecording => {
                if c == preamble_char(0) {
                    self.state.next(PREAMBLE_LEN, TERMINATOR_LEN);
                }
                None
            },
            FrameRecorderState::Activating(level) => {
                if c == preamble_char(level + 1) {
                    self.state.next(PREAMBLE_LEN, TERMINATOR_LEN);
                } else {
                    self.state = FrameRecorderState::NotRecording;
                }
                None
            },
            FrameRecorderState::Recording => {
                self.buffer.push(c);
                if c == terminator_char(0) {
                    self.state.next(PREAMBLE_LEN, TERMINATOR_LEN);
                }
                None
            },
            FrameRecorderState::Terminating(level) => {
                self.buffer.push(c);
                if c == terminator_char(level + 1) {
                    self.state.next(PREAMBLE_LEN, TERMINATOR_LEN);
                } else {
                    self.state = FrameRecorderState::Recording;
                }
                match self.state {
                    FrameRecorderState::NotRecording => {
                        let body = string_of_prefix(&self.buffer, self.buffer.len() - TERMINATOR_LEN);
                        self.buffer.clear();
                        assert(self.buffer@ =~= Seq::<char>::empty());
                        Some(body)
                    },
                    _ => None,
                }
            },
        }
    }

    /// Feeds the characters of `chunk` in order; returns the frame bodies
    /// they complete, in order.
    pub fn push_str(&mut self, chunk: &str) -> (r: Vec<String>)
        requires
            old(self).wf(),
        ensures
            final(self).wf(),
            final(self)@ == feed(old(self)@, chunk@).0,
            bodies_view(r@) == feed(old(self)@, chunk@).1,
    {
        let cs = chars_of(chunk);
        let mut out: Vec<String> = Vec::new();
        let mut i: usize = 0;
        while i < cs.len()
            invariant
                self.wf(),
                i <= cs@.len(),
                cs@ == chunk@,
                self@ == feed(old(self)@, cs@.subrange(0, i as int)).0,
                bodies_view(out@) == feed(old(self)@, cs@.subrange(0, i as int)).1,
            decreases cs.len() - i,
        {
            let ghost prefix = cs@.subrange(0, i as int);
            let ghost out_before = out@;
            let body = self.push(cs[i]);
            let ghost bv = body_view(body);
            match body {
                Some(b) => {
                    out.push(b);
                },
                None => {},
            }
            proof {
                let next = cs@.subrange(0, i + 1);
                assert(next.drop_last() =~= prefix);
                if bv is Some {
                    assert(bodies_view(out@) =~= bodies_view(out_before).push(bv->0));
                }
                assert(bodies_view(out@) =~= feed(old(self)@, next).1);
            }
            i = i + 1;
        }
        assert(cs@.subrange(0, i as int) =~= chunk@);
        out
    }
}

/// The frame bodies that a vector of strings stands for.
pub open spec fn bodies_view(v: Seq<String>) -> Seq<Seq<char>> {
    v.map_values(|s: String| s@)
}

/// One character keeps the automaton in a state that it can reach.
pub proof fn lemma_step_wf(m: RecorderModel, c: char)
    requires
        model_wf(m),
    ensures
        model_wf(step(m, c).0),
{
}

/// Chunks fed one after another: the final model and the frame bodies
/// completed on the way, in order.
pub open spec fn feed_chunks(m: RecorderModel, chunks: Seq<Seq<char>>) -> (RecorderModel, Seq<Seq<char>>)
    decreases chunks.len(),
{
    if chunks.len() == 0 {
        (m, Seq::empty())
    } else {
        let (m1, out1) = feed_chunks(m, chunks.drop_last());
        let (m2, out2) = feed(m1, chunks.last());
        (m2, out1 + out2)
    }
}

/// Feeding `a` and then `b` is feeding `a + b`.
pub proof fn lemma_feed_append(m: RecorderModel, a: Seq<char>, b: Seq<char>)
    ensures
        feed(m, a + b).0 == feed(feed(m, a).0, b).0,
        feed(m, a + b).1 == feed(m, a).1 + feed(feed(m, a).0, b).1,
    decreases b.len(),
{
    if b.len() == 0 {
        assert(a + b =~= a);
        assert(feed(m, a).1 + feed(feed(m, a).0, b).1 =~= feed(m, a).1);
    } else {
        lemma_feed_append(m, a, b.drop_last());
        assert((a + b).drop_last() =~= a + b.drop_last());
        assert((a + b).last() == b.last());
        let mid = feed(feed(m, a).0, b.drop_last());
        let (m2, o) = step(mid.0, b.last());
        if o is Some {
            assert(feed(m, a).1 + mid.1.push(o->0) =~= (feed(m, a).1 + mid.1).push(o->0));
        }
    }
}

/// Chunk boundaries do not matter: feeding a stream in chunks, one after
/// another, leaves the recorder as feeding the whole stream one character at
/// a time does, and completes the same frame bodies in the same order.
pub proof fn lemma_chunk_boundaries_invariant(m: RecorderModel, chunks: Seq<Seq<char>>)
    ensures
        feed_chunks(m, chunks) == feed(m, chunks.flatten()),
    decreases chunks.len(),
{
    chunks.lemma_flatten_and_flatten_alt_are_equivalent();
    if chunks.len() == 0 {
    } else {
        lemma_chunk_boundaries_invariant(m, chunks.drop_last());
        chunks.drop_last().lemma_flatten_and_flatten_alt_are_equivalent();
        lemma_feed_append(m, chunks.drop_last().flatten(), chunks.last());
    }
}

/// Read inside a frame, `s` closes no frame and leaves the recorder inside
/// it: each carriage return in `s` is followed by a character other than a
/// line feed, which the recorder then keeps as plain text.
pub open spec fn frame_free(s: Seq<char>) -> bool
    decreases s.len(),
{
    if s.len() == 0 {
        true
    } else if s[0] != terminator()[0] {
        frame_free(s.drop_first())
    } else {
        s.len() >= 2 && s[1] != terminator()[1] && frame_free(s.subrange(2, s.len() as int))
    }
}

proof fn lemma_feed_one(m: RecorderModel, c: char)
    ensures
        feed(m, seq![c]).0 == step(m, c).0,
        feed(m, seq![c]).1 == match step(m, c).1 {
            Some(b) => seq![b],
            None => Seq::<Seq<char>>::empty(),
        },
{
    assert(seq![c].drop_last() =~= Seq::<char>::empty());
    assert(seq![c].last() == c);
    reveal_with_fuel(feed, 2);
    if step(m, c).1 is Some {
        assert(Seq::<Seq<char>>::empty().push(step(m, c).1->0) =~= seq![step(m, c).1->0]);
    }
}

proof fn lemma_feed_body(buffer: Seq<char>, s: Seq<char>)
    requires
        frame_free(s),
    ensures
        feed(RecorderModel { state: FrameRecorderState::Recording, buffer }, s)
            == (RecorderModel { state: FrameRecorderState::Recording, buffer: buffer + s }, Seq::<Seq<char>>::empty()),
    decreases s.len(),
{
    let m = RecorderModel { state: FrameRecorderState::Recording, buffer };
    if s.len() == 0 {
        assert(buffer + s =~= buffer);
    } else if s[0] != terminator()[0] {
        let rest = s.drop_first();
        assert(s =~= seq![s[0]] + rest);
        lemma_feed_append(m, seq![s[0]], rest);
        lemma_feed_one(m, s[0]);
        lemma_feed_body(buffer.push(s[0]), rest);
        assert(buffer.push(s[0]) + rest =~= buffer + s);
        assert(Seq::<Seq<char>>::empty() + Seq::<Seq<char>>::empty() =~= Seq::<Seq<char>>::empty());
    } else {
        let rest = s.subrange(2, s.len() as int);
        assert(s =~= seq![s[0], s[1]] + rest);
        assert(seq![s[0], s[1]] =~= seq![s[0]] + seq![s[1]]);
        lemma_feed_append(m, seq![s[0]], seq![s[1]]);
        lemma_feed_one(m, s[0]);
        let m1 = step(m, s[0]).0;
        lemma_feed_one(m1, s[1]);
        lemma_feed_append(m, seq![s[0], s[1]], rest);
        lemma_feed_body(buffer.push(s[0]).push(s[1]), rest);
        assert(buffer.push(s[0]).push(s[1]) + rest =~= buffer + s);
        assert(Seq::<Seq<char>>::empty() + Seq::<Seq<char>>::empty() =~= Seq::<Seq<char>>::empty());
    }
}

/// An idle recorder fed a whole frame, `"OK 9 "`, a body that closes no
/// frame by itself, and `"\r\n"`, completes exactly that body and is idle and
/// empty again.
pub proof fn lemma_frame_is_recorded(m: RecorderModel, body: Seq<char>)
    requires
        model_wf(m),
        m.state == FrameRecorderState::NotRecording,
        frame_free(body),
    ensures
        feed(m, preamble() + body + terminator()) == (initial_model(), seq![body]),
{
    let empty = Seq::<Seq<char>>::empty();
    assert(m == initial_model()) by {
        assert(m.buffer =~= Seq::<char>::empty());
    }
    reveal_with_fuel(feed, 6);
    let rec = RecorderModel { state: FrameRecorderState::Recording, buffer: Seq::empty() };
    assert(preamble().drop_last().drop_last().drop_last().drop_last().drop_last() =~= Seq::<char>::empty());
    assert(feed(m, preamble()) == (rec, empty));
    lemma_feed_append(m, preamble(), body);
    lemma_feed_body(Seq::empty(), body);
    assert(Seq::<char>::empty() + body =~= body);
    let after_body = RecorderModel { state: FrameRecorderState::Recording, buffer: body };
    reveal_with_fuel(feed, 3);
    assert(terminator().drop_last().drop_last() =~= Seq::<char>::empty());
    assert(terminator().drop_last() =~= seq!['\r']);
    let b = body.push('\r').push('\n');
    assert(b.subrange(0, b.len() - 2) =~= body);
    assert(feed(after_body, terminator()) == (initial_model(), seq![body]));
    lemma_feed_append(m, preamble() + body, terminator());
    assert(empty + empty + seq![body] =~= seq![body]);
}

/// `s` ends with `x`.
pub open spec fn ends_with(s: Seq<char>, x: Seq<char>) -> bool {
    x.len() <= s.len() && s.subrange(s.len() - x.len(), s.len() as int) == x
}

/// The whole frame `"OK 9 "`, `body`, `"\r\n"`.
pub open spec fn framed(body: Seq<char>) -> Seq<char> {
    preamble() + body + terminator()
}

/// The stream `cs` holds `body` between a preamble and a terminator, all
/// three contiguous.
pub open spec fn framed_in(cs: Seq<char>, body: Seq<char>) -> bool {
    exists|k: int|
        0 <= k && k + framed(body).len() <= cs.len() && #[trigger] cs.subrange(k, k + framed(body).len())
            == framed(body)
}

/// What the recorder's state says of the stream that led to it.
spec fn tracks(m: RecorderModel, cs: Seq<char>) -> bool {
    match m.state {
        FrameRecorderState::NotRecording => true,
        FrameRecorderState::Activating(l) => ends_with(cs, preamble().subrange(0, l + 1)),
        _ => ends_with(cs, preamble() + m.buffer),
    }
}

proof fn lemma_ends_with_push(s: Seq<char>, x: Seq<char>, c: char)
    requires
        ends_with(s, x),
    ensures
        ends_with(s.push(c), x.push(c)),
{
    assert(s.push(c).subrange(s.push(c).len() - x.push(c).len(), s.push(c).len() as int) =~= x.push(c)) by {
        assert(s.subrange(s.len() - x.len(), s.len() as int) == x);
        assert forall|j: int| 0 <= j < x.len() implies s[s.len() - x.len() + j] == x[j] by {
            assert(s.subrange(s.len() - x.len(), s.len() as int)[j] == s[s.len() - x.len() + j]);
        }
    }
}

proof fn lemma_framed_in_push(s: Seq<char>, body: Seq<char>, c: char)
    requires
        framed_in(s, body),
    ensures
        framed_in(s.push(c), body),
{
    let k = choose|k: int|
        0 <= k && k + framed(body).len() <= s.len() && #[trigger] s.subrange(k, k + framed(body).len())
            == framed(body);
    assert(s.push(c).subrange(k, k + framed(body).len()) =~= s.subrange(k, k + framed(body).len()));
}

proof fn lemma_feed_sound(cs: Seq<char>)
    ensures
        model_wf(feed(initial_model(), cs).0),
        tracks(feed(initial_model(), cs).0, cs),
        forall|i: int|
            0 <= i < feed(initial_model(), cs).1.len() ==> framed_in(cs, #[trigger] feed(initial_model(), cs).1[i]),
    decreases cs.len(),
{
    if cs.len() > 0 {
        let p = cs.drop_last();
        let c = cs.last();
        assert(cs =~= p.push(c));
        lemma_feed_sound(p);
        let (m1, out1) = feed(initial_model(), p);
        let (m2, o) = step(m1, c);
        lemma_step_wf(m1, c);
        assert forall|i: int| 0 <= i < out1.len() implies framed_in(cs, #[trigger] out1[i]) by {
            lemma_framed_in_push(p, out1[i], c);
        }
        match m1.state {
            FrameRecorderState::NotRecording => {
                if c == preamble()[0] {
                    assert(p.subrange(p.len() as int, p.len() as int) =~= Seq::<char>::empty());
                    lemma_ends_with_push(p, Seq::<char>::empty(), c);
                    assert(Seq::<char>::empty().push(c) =~= preamble().subrange(0, 1));
                }
            },
            FrameRecorderState::Activating(l) => {
                if c == preamble()[l + 1] {
                    lemma_ends_with_push(p, preamble().subrange(0, l + 1), c);
                    assert(preamble().subrange(0, l + 1).push(c) =~= preamble().subrange(0, l + 2));
                    assert(preamble() + m1.buffer =~= preamble().subrange(0, 5));
                }
            },
            FrameRecorderState::Recording => {
                lemma_ends_with_push(p, preamble() + m1.buffer, c);
                assert((preamble() + m1.buffer).push(c) =~= preamble() + m1.buffer.push(c));
            },
            FrameRecorderState::Terminating(l) => {
                lemma_ends_with_push(p, preamble() + m1.buffer, c);
                assert((preamble() + m1.buffer).push(c) =~= preamble() + m1.buffer.push(c));
                if c == terminator()[l + 1] {
                    let b = m1.buffer.push(c);
                    let body = b.subrange(0, b.len() - 2);
                    assert(preamble() + b =~= framed(body));
                    let k = cs.len() - framed(body).len();
                    assert(cs.subrange(k, k + framed(body).len()) == framed(body));
                    assert(framed_in(cs, body));
                    assert forall|i: int| 0 <= i < feed(initial_model(), cs).1.len() implies framed_in(
                        cs,
                        #[trigger] feed(initial_model(), cs).1[i],
                    ) by {
                        if i < out1.len() {
                            assert(feed(initial_model(), cs).1[i] == out1[i]);
                        }
                    }
                }
            },
        }
    }
}

/// Every frame body that a fresh recorder completes stood in the stream
/// between a preamble and a terminator.
pub proof fn lemma_recorded_bodies_are_framed(cs: Seq<char>)
    ensures
        forall|i: int|
            0 <= i < feed(initial_model(), cs).1.len() ==> framed_in(cs, #[trigger] feed(initial_model(), cs).1[i]),
{
    lemma_feed_sound(cs);
}

} // verus!
