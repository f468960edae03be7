//! The loop of the transport.

use crate::beat::Beat;
use vstd::prelude::*;

verus! {

/// Whether playback loops, and where.
#[derive(Clone, Copy, Debug, PartialEq, Eq, Structural)]
pub struct LoopRegion {
    pub enabled: bool,
    pub start_beat: Beat,
    pub end_beat: Beat,
}

/// A loop that is off and has no range.
pub open spec fn no_loop() -> LoopRegion {
    LoopRegion { enabled: false, start_beat: Beat { bits: 0 }, end_beat: Beat { bits: 0 } }
}

/// A position on the timeline: a finite number that is not negative, or zero in
/// place of anything else.
pub open spec fn position(b: Beat) -> Beat {
    if b.is_finite() && !b.lt(Beat { bits: 0 }) {
        b
    } else {
        Beat { bits: 0 }
    }
}

impl LoopRegion {
    /// Whether there is a range to loop.
    pub open spec fn spec_has_range(&self) -> bool {
        self.start_beat.lt(self.end_beat)
    }

    /// Whether there is a range to loop: the end is behind the start.
    #[verifier::when_used_as_spec(spec_has_range)]
    pub fn has_range(&self) -> (r: bool)
        ensures
            r == self.spec_has_range(),
    {
        self.start_beat.lt(self.end_beat)
    }

    /// The region with both ends on the timeline.
    pub open spec fn sane(self) -> LoopRegion {
        LoopRegion {
            enabled: self.enabled,
            start_beat: position(self.start_beat),
            end_beat: position(self.end_beat),
        }
    }

    /// Puts both ends on the timeline.
    pub fn sanitize(&mut self)
        ensures
            *final(self) == old(self).sane(),
    {
        self.start_beat = on_timeline(self.start_beat);
        self.end_beat = on_timeline(self.end_beat);
    }
}

impl Default for LoopRegion {
    fn default() -> (r: LoopRegion)
        ensures
            r == no_loop(),
    {
        LoopRegion { enabled: false, start_beat: Beat::zero(), end_beat: Beat::zero() }
    }
}

/// A position on the timeline, see [`position`].
fn on_timeline(b: Beat) -> (r: Beat)
    ensures
        r == position(b),
{
    if b.is_finite() && !b.lt(Beat::zero()) {
        b
    } else {
        Beat::zero()
    }
}

/// A region with both ends on the timeline stays as it is.
pub proof fn law_sanitizing_is_idempotent(r: LoopRegion)
    ensures
        r.sane().sane() == r.sane(),
        r.sane().start_beat.is_finite(),
        r.sane().end_beat.is_finite(),
{
}

} // verus!
