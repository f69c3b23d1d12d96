//! The framing of lists and maps that are encoded while their elements
//! arrive from a stream.
//!
//! A framed stream alternates between polling its source for the next
//! element and forwarding the chunks of that element's encoding. The
//! decisions it takes between the two, which delimiter to emit and when to
//! end, are made here; the caller does the polling and forwarding.
use vstd::prelude::*;

use crate::constants::{COLON, COMMA, LIST_BEGIN, LIST_END, MAP_BEGIN, MAP_END};

verus! {

/// What polling the source of a framed stream gave.
#[derive(Debug, Clone, Copy, PartialEq, Eq, Structural)]
pub enum SourceEvent {
    /// The next element, whose encoding is forwarded next.
    Item,
    /// A failure of the source, which is forwarded.
    Failed,
    /// The source has no more elements.
    Exhausted,
}

/// What a framed stream does next.
#[derive(Debug, Clone, Copy, PartialEq, Eq, Structural)]
pub enum FrameAction {
    /// Emit a one-byte chunk.
    Emit(u8),
    /// Forward the failure.
    Fail,
    /// End the stream.
    End,
}

/// The state of a framed list or map: whether it has emitted its opening
/// delimiter and whether it has emitted its closing one.
pub struct Framer {
    open: u8,
    close: u8,
    started: bool,
    finished: bool,
}

/// The framer's decision on a poll of the source, from its delimiters and
/// state: the new state (`started`, `finished`) and what to do.
pub open spec fn frame_step(open: u8, close: u8, started: bool, finished: bool, event: SourceEvent) -> (bool, bool, FrameAction) {
    match event {
        SourceEvent::Item => if started {
            (started, finished, FrameAction::Emit(COMMA))
        } else {
            (true, finished, FrameAction::Emit(open))
        },
        SourceEvent::Failed => (started, finished, FrameAction::Fail),
        SourceEvent::Exhausted => if !started {
            (true, finished, FrameAction::Emit(open))
        } else if !finished {
            (started, true, FrameAction::Emit(close))
        } else {
            (started, finished, FrameAction::End)
        },
    }
}

impl Framer {
    /// A framer emits its closing delimiter only after its opening one.
    #[verifier::type_invariant]
    spec fn closes_after_opening(self) -> bool {
        self.finished ==> self.started
    }

    /// The opening and closing delimiters.
    pub closed spec fn delimiters(&self) -> (u8, u8) {
        (self.open, self.close)
    }

    /// Whether the opening delimiter was emitted.
    pub closed spec fn started(&self) -> bool {
        self.started
    }

    /// Whether the closing delimiter was emitted.
    pub closed spec fn finished(&self) -> bool {
        self.finished
    }

    /// The framer of a list, which has emitted nothing yet.
    pub fn list() -> (f: Framer)
        ensures
            f.delimiters() == (LIST_BEGIN, LIST_END),
            !f.started(),
            !f.finished(),
    {
        Framer { open: LIST_BEGIN, close: LIST_END, started: false, finished: false }
    }

    /// The framer of a map, which has emitted nothing yet.
    pub fn map() -> (f: Framer)
        ensures
            f.delimiters() == (MAP_BEGIN, MAP_END),
            !f.started(),
            !f.finished(),
    {
        Framer { open: MAP_BEGIN, close: MAP_END, started: false, finished: false }
    }

    /// Decide what to do on a poll of the source: before the first element
    /// the opening delimiter, between elements a comma, after the last the
    /// closing delimiter, and then the end.
    pub fn on_source(&mut self, event: SourceEvent) -> (a: FrameAction)
        ensures
            final(self).delimiters() == old(self).delimiters(),
            old(self).finished() ==> old(self).started(),
            final(self).finished() ==> final(self).started(),
            (final(self).started(), final(self).finished(), a) == frame_step(
                old(self).delimiters().0,
                old(self).delimiters().1,
                old(self).started(),
                old(self).finished(),
                event,
            ),
    {
        proof {
            use_type_invariant(&*self);
        }
        match event {
            SourceEvent::Item => {
                if self.started {
                    FrameAction::Emit(COMMA)
                } else {
                    self.started = true;
                    FrameAction::Emit(self.open)
                }
            },
            SourceEvent::Failed => FrameAction::Fail,
            SourceEvent::Exhausted => {
                if !self.started {
                    self.started = true;
                    FrameAction::Emit(self.open)
                } else if !self.finished {
                    self.finished = true;
                    FrameAction::Emit(self.close)
                } else {
                    FrameAction::End
                }
            },
        }
    }

    /// Whether the framed stream has ended: its closing delimiter was emitted.
    pub fn is_terminated(&self) -> (r: bool)
        ensures
            r == self.finished(),
            r ==> self.started(),
    {
        proof {
            use_type_invariant(self);
        }
        self.finished
    }
}

/// Which part of a map entry a framed entry forwards.
#[derive(Debug, Clone, Copy, PartialEq, Eq, Structural)]
pub enum EntryPart {
    Key,
    Value,
    Done,
}

/// The state of a framed map entry: whether its key, and then its value,
/// have ended.
pub struct EntryFramer {
    key_done: bool,
    value_done: bool,
}

impl EntryFramer {
    /// Whether the key has ended.
    pub closed spec fn key_done(&self) -> bool {
        self.key_done
    }

    /// Whether the value has ended.
    pub closed spec fn value_done(&self) -> bool {
        self.value_done
    }

    /// The framer of an entry whose key comes next.
    pub fn new() -> (f: EntryFramer)
        ensures
            !f.key_done(),
            !f.value_done(),
    {
        EntryFramer { key_done: false, value_done: false }
    }

    /// The part whose chunks are forwarded now.
    pub fn part(&self) -> (p: EntryPart)
        ensures
            p == (if !self.key_done() {
                EntryPart::Key
            } else if !self.value_done() {
                EntryPart::Value
            } else {
                EntryPart::Done
            }),
    {
        if !self.key_done {
            EntryPart::Key
        } else if !self.value_done {
            EntryPart::Value
        } else {
            EntryPart::Done
        }
    }

    /// The current part has ended: after the key a colon is emitted and
    /// the value follows; after the value the entry ends.
    pub fn part_ended(&mut self) -> (a: FrameAction)
        ensures
            !old(self).key_done() ==> a == FrameAction::Emit(COLON) && final(self).key_done()
                && final(self).value_done() == old(self).value_done(),
            old(self).key_done() ==> a == FrameAction::End && final(self).key_done() && final(self).value_done(),
    {
        if !self.key_done {
            self.key_done = true;
            FrameAction::Emit(COLON)
        } else {
            self.value_done = true;
            FrameAction::End
        }
    }
}

/// The bytes a framer's action emits.
pub open spec fn action_bytes(a: FrameAction) -> Seq<u8> {
    match a {
        FrameAction::Emit(b) => seq![b],
        _ => Seq::empty(),
    }
}

/// The bytes of a framed stream whose source yields elements encoded as
/// `items` and is then polled `polls` more times after it is exhausted,
/// from the given state; nothing more after the framer ends the stream.
pub open spec fn drive(open: u8, close: u8, started: bool, finished: bool, items: Seq<Seq<u8>>, polls: nat) -> Seq<u8>
    decreases items.len(), polls,
{
    if items.len() > 0 {
        let (s, f, a) = frame_step(open, close, started, finished, SourceEvent::Item);
        action_bytes(a) + items[0] + drive(open, close, s, f, items.drop_first(), polls)
    } else if polls == 0 {
        Seq::empty()
    } else {
        let (s, f, a) = frame_step(open, close, started, finished, SourceEvent::Exhausted);
        if a is End {
            Seq::empty()
        } else {
            action_bytes(a) + drive(open, close, s, f, items, (polls - 1) as nat)
        }
    }
}

/// Each element encoding after a comma.
pub open spec fn comma_led(items: Seq<Seq<u8>>) -> Seq<u8>
    decreases items.len(),
{
    if items.len() == 0 {
        Seq::empty()
    } else {
        seq![COMMA] + items[0] + comma_led(items.drop_first())
    }
}

/// The element encodings separated by commas.
pub open spec fn joined(items: Seq<Seq<u8>>) -> Seq<u8> {
    if items.len() == 0 {
        Seq::empty()
    } else {
        items[0] + comma_led(items.drop_first())
    }
}

/// Once the opening delimiter is out, the rest of a framed stream is each
/// element after a comma and then the closing delimiter.
proof fn lemma_drive_started(open: u8, close: u8, items: Seq<Seq<u8>>, polls: nat)
    requires
        polls >= 1,
    ensures
        drive(open, close, true, false, items, polls) == comma_led(items) + seq![close],
    decreases items.len(),
{
    if items.len() > 0 {
        lemma_drive_started(open, close, items.drop_first(), polls);
        assert(drive(open, close, true, false, items, polls) =~= comma_led(items) + seq![close]);
    } else {
        assert(drive(open, close, true, true, items, (polls - 1) as nat) =~= Seq::<u8>::empty()) by {
            if polls - 1 > 0 {
            }
        }
        assert(drive(open, close, true, false, items, polls) =~= comma_led(items) + seq![close]);
    }
}

/// A framed stream is the JSON list (or map) of its elements: the opening
/// delimiter, the elements' encodings separated by commas, and the closing
/// delimiter, after which it ends however often it is polled.
pub proof fn law_framed_stream(open: u8, close: u8, items: Seq<Seq<u8>>, polls: nat)
    requires
        polls >= 2,
    ensures
        drive(open, close, false, false, items, polls) == seq![open] + joined(items) + seq![close],
{
    if items.len() > 0 {
        lemma_drive_started(open, close, items.drop_first(), polls);
        assert(drive(open, close, false, false, items, polls) =~= seq![open] + joined(items) + seq![close]);
    } else {
        lemma_drive_started(open, close, items, (polls - 1) as nat);
        assert(drive(open, close, false, false, items, polls) =~= seq![open] + joined(items) + seq![close]);
    }
}

/// A framer never closes before it has opened, whatever it is told; and
/// once it has closed, an exhausted source ends the stream every time it is
/// polled and the framer stays as it is.
pub proof fn law_framer_keeps_ending(open: u8, close: u8, started: bool, finished: bool, event: SourceEvent)
    requires
        finished ==> started,
    ensures
        frame_step(open, close, started, finished, event).1 ==> frame_step(open, close, started, finished, event).0,
        finished ==> frame_step(open, close, started, finished, SourceEvent::Exhausted) == (
            started,
            finished,
            FrameAction::End,
        ),
{
}

} // verus!
