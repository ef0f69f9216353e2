use vstd::prelude::*;
use crate::encoder::encode;
use crate::encoder::encode_spec;
use crate::words::WordSource;

verus! {

// The session is the trainer's state machine. It holds the current target
// word, the user's pending input, the last verification outcome and a
// mistake counter, and reacts to exactly two events: a change of the
// input text and a submission. A submission that matches the encoding of
// the target is correct; it clears the input and draws a fresh target. A
// wrong submission merely counts a mistake. The session never ends of its
// own accord.

/// The verdict on the most recent submission. An incorrect guess is a
/// normal domain outcome, not an error.
#[derive(Clone, Copy, Debug, PartialEq, Eq, Structural)]
pub enum Outcome {
    Correct,
    Incorrect,
}

/// The state of one training session.
pub struct Session {
    /// The dictionary that targets are drawn from.
    pub source: WordSource,
    /// The word the user is asked to encode; always a dictionary entry.
    pub target: String,
    /// The text currently in the input field.
    pub pending_input: String,
    /// The verdict on the last submission, cleared by the next input change.
    pub last_outcome: Option<Outcome>,
    /// How many submissions have been wrong so far.
    pub mistake_count: u64,
}

impl Session {
    /// The session invariant: the word source is usable and the target is
    /// one of its entries. It is replaced only right after a correct
    /// submission, never otherwise.
    pub open spec fn inv(&self) -> bool {
        &&& self.source.wf()
        &&& self.source.entries().contains(self.target@)
    }

    /// Starts a session: draws a fresh target from the source, with empty
    /// input, no outcome and no mistakes.
    pub fn init_session(source: WordSource) -> (s: Session)
        requires
            source.wf(),
        ensures
            s.inv(),
            s.source == source,
            s.pending_input@ == Seq::<char>::empty(),
            s.last_outcome is None,
            s.mistake_count == 0,
    {
        let target = source.next_word();
        Session {
            source,
            target,
            pending_input: String::new(),
            last_outcome: None,
            mistake_count: 0,
        }
    }

    /// The InputChanged event: stores the new text and clears the last
    /// outcome. Nothing else changes.
    pub fn on_input_changed(&mut self, text: String)
        requires
            old(self).inv(),
        ensures
            final(self).inv(),
            final(self).pending_input == text,
            final(self).last_outcome is None,
            final(self).target == old(self).target,
            final(self).source == old(self).source,
            final(self).mistake_count == old(self).mistake_count,
    {
        self.pending_input = text;
        self.last_outcome = None;
    }

    /// The Submit event: compares the pending input, byte for byte, with
    /// the encoding of the current target. A match is Correct: the input
    /// is cleared and a fresh target is drawn from the same source. A
    /// mismatch is Incorrect: the mistake count rises by exactly one and
    /// target and input stay as they were.
    pub fn on_submit(&mut self)
        requires
            old(self).inv(),
            old(self).mistake_count < u64::MAX,
        ensures
            final(self).inv(),
            final(self).source == old(self).source,
            old(self).pending_input@ == encode_spec(old(self).target@) ==> {
                &&& final(self).last_outcome == Some(Outcome::Correct)
                &&& final(self).pending_input@ == Seq::<char>::empty()
                &&& old(self).source.entries().contains(final(self).target@)
                &&& final(self).mistake_count == old(self).mistake_count
            },
            old(self).pending_input@ != encode_spec(old(self).target@) ==> {
                &&& final(self).last_outcome == Some(Outcome::Incorrect)
                &&& final(self).pending_input == old(self).pending_input
                &&& final(self).target == old(self).target
                &&& final(self).mistake_count == old(self).mistake_count + 1
            },
    {
        let expected = encode(self.target.as_str());
        if self.pending_input.eq(&expected) {
            self.last_outcome = Some(Outcome::Correct);
            self.pending_input = String::new();
            self.target = self.source.next_word();
        } else {
            self.last_outcome = Some(Outcome::Incorrect);
            self.mistake_count = self.mistake_count + 1;
        }
    }
}

} // verus!
