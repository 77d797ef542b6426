use vstd::prelude::*;

use crate::types::{allows_pair, consent, LayerMask};

verus! {

/// What the event pipeline does with one candidate pair (or with one
/// collider against the tilemaps).
#[derive(Copy, Clone, Debug, PartialEq, Eq, Structural)]
pub enum PairPlan {
    /// Emit nothing.
    Skip,
    /// Run the sweep test and emit a `Sweep` event on a hit.
    Sweep,
    /// Run the sweep test; on a miss, run the overlap test instead.
    SweepElseOverlap,
    /// Run the overlap test and emit an `Overlap` event on success.
    Overlap,
}

/// The plan for a pair whose masks give `consents`, moving relative to each
/// other when `dynamic`, with sweep and overlap events switched on or off.
pub open spec fn plan_of(consents: bool, dynamic: bool, sweep_on: bool, overlap_on: bool) -> PairPlan {
    if !consents {
        PairPlan::Skip
    } else if dynamic && sweep_on {
        if overlap_on {
            PairPlan::SweepElseOverlap
        } else {
            PairPlan::Sweep
        }
    } else if overlap_on {
        PairPlan::Overlap
    } else {
        PairPlan::Skip
    }
}

/// Decides what the pipeline runs for a consenting pair (or for one collider
/// against the tilemaps, whose consent is checked per map), moving when
/// `dynamic`.
pub fn motion_plan(dynamic: bool, sweep_on: bool, overlap_on: bool) -> (r: PairPlan)
    ensures
        r == plan_of(true, dynamic, sweep_on, overlap_on),
{
    if dynamic && sweep_on {
        if overlap_on {
            PairPlan::SweepElseOverlap
        } else {
            PairPlan::Sweep
        }
    } else if overlap_on {
        PairPlan::Overlap
    } else {
        PairPlan::Skip
    }
}

/// Decides how the pipeline treats one pair of colliders with masks `a` and
/// `b` under the consent rule `mutual`.
pub fn pair_plan(
    a: LayerMask,
    b: LayerMask,
    mutual: bool,
    dynamic: bool,
    sweep_on: bool,
    overlap_on: bool,
) -> (r: PairPlan)
    ensures
        r == plan_of(consent(a, b, mutual), dynamic, sweep_on, overlap_on),
{
    if allows_pair(a, b, mutual) {
        motion_plan(dynamic, sweep_on, overlap_on)
    } else {
        PairPlan::Skip
    }
}

/// Under mutual consent, a pair that the pipeline does not skip has masks
/// that allow each other both ways.
pub proof fn lemma_planned_pair_consents(
    a: LayerMask,
    b: LayerMask,
    dynamic: bool,
    sweep_on: bool,
    overlap_on: bool,
)
    requires
        plan_of(consent(a, b, true), dynamic, sweep_on, overlap_on) != PairPlan::Skip,
    ensures
        a.allows_spec(b),
        b.allows_spec(a),
{
}

/// Two colliders whose masks do not consent under the configured rule never
/// give an event, whatever their motion and whichever events are on.
pub proof fn lemma_disagreeing_masks_skip(
    a: LayerMask,
    b: LayerMask,
    mutual: bool,
    dynamic: bool,
    sweep_on: bool,
    overlap_on: bool,
)
    requires
        !consent(a, b, mutual),
    ensures
        plan_of(consent(a, b, mutual), dynamic, sweep_on, overlap_on) == PairPlan::Skip,
        plan_of(consent(b, a, mutual), dynamic, sweep_on, overlap_on) == PairPlan::Skip,
{
}

/// The events of one frame, holding at most `max` of them; events pushed
/// while it is full are dropped.
pub struct EventBuffer<T> {
    events: Vec<T>,
    max: usize,
}

impl<T> EventBuffer<T> {
    /// The buffered events, oldest first.
    pub closed spec fn view(&self) -> Seq<T> {
        self.events@
    }

    /// The most events the buffer holds.
    pub closed spec fn cap(&self) -> nat {
        self.max as nat
    }

    /// An empty buffer that holds at most `max` events.
    pub fn new(max: usize) -> (r: Self)
        ensures
            r@ == Seq::<T>::empty(),
            r.cap() == max,
    {
        EventBuffer { events: Vec::new(), max }
    }

    pub fn len(&self) -> (r: usize)
        ensures
            r == self@.len(),
    {
        self.events.len()
    }

    /// Whether the buffer has reached its cap.
    pub fn is_full(&self) -> (r: bool)
        ensures
            r == (self@.len() >= self.cap()),
    {
        self.events.len() >= self.max
    }

    /// Appends `ev` unless the buffer is full; returns whether it was kept.
    pub fn push(&mut self, ev: T) -> (r: bool)
        ensures
            r == (old(self)@.len() < old(self).cap()),
            final(self)@ == (if r {
                old(self)@.push(ev)
            } else {
                old(self)@
            }),
            final(self).cap() == old(self).cap(),
    {
        if self.events.len() < self.max {
            self.events.push(ev);
            true
        } else {
            false
        }
    }

    /// Removes every event.
    pub fn clear(&mut self)
        ensures
            final(self)@ == Seq::<T>::empty(),
            final(self).cap() == old(self).cap(),
    {
        self.events = Vec::new();
    }

    /// Hands out the buffered events, oldest first, and empties the buffer.
    pub fn drain(&mut self) -> (r: Vec<T>)
        ensures
            r@ == old(self)@,
            final(self)@ == Seq::<T>::empty(),
            final(self).cap() == old(self).cap(),
    {
        let mut out: Vec<T> = Vec::new();
        std::mem::swap(&mut out, &mut self.events);
        out
    }
}

} // verus!
