//! The transcript from which prover and verifier draw their challenges.

use crate::groups::Encode;
use crate::scalar::Scalar;
use vstd::prelude::*;

verus! {

/// One thing that happened to a transcript.
pub enum Event {
    /// The transcript was set apart from those of other applications.
    DomainSep,
    /// A value was appended, in its canonical encoding.
    Append { label: Seq<u8>, bytes: Seq<u8> },
    /// A challenge was drawn.
    Challenge { label: Seq<u8>, value: int },
}

/// A transcript of the application, which the argument feeds with its messages and draws its
/// challenges from.  The application may have fed it with other data before.
pub trait Transcript {
    /// What has happened to the transcript so far.  Only a transcript that is itself verified has to
    /// say what that is.
    closed spec fn log(&self) -> Seq<Event> {
        arbitrary()
    }

    /// Sets the transcript apart from those of other applications.
    fn domain_sep(&mut self)
        ensures
            final(self).log() == old(self).log().push(Event::DomainSep),
    ;

    /// Appends the canonical encoding of a value.
    fn append<S: Encode>(&mut self, label: &'static [u8], point: &S)
        ensures
            final(self).log() == old(self).log().push(
                Event::Append { label: label@, bytes: point.encoding() },
            ),
    ;

    /// Draws a challenge.
    fn challenge_scalar(&mut self, label: &'static [u8]) -> (c: Scalar)
        ensures
            final(self).log() == old(self).log().push(
                Event::Challenge { label: label@, value: c@ },
            ),
    ;
}

/// Whether every challenge of a log, from some place on, is what `draw` makes of the log before it
/// and of the label.
pub open spec fn drawn_by(
    log: Seq<Event>,
    from: int,
    draw: spec_fn(Seq<Event>, Seq<u8>) -> int,
) -> bool {
    forall|i: int|
        from <= i < log.len() ==> (#[trigger] log[i] matches Event::Challenge { label, value }
            ==> value == draw(log.take(i), label))
}

} // verus!
