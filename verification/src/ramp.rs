use vstd::prelude::*;

verus! {

/// The highest value of the force scale, in hundredths: the full strength.
pub const FULL_SCALE: u32 = 100;

/// One tick of the ramp, on hundredths: one more, unless it is full.
pub open spec fn step(hundredths: nat) -> nat {
    if hundredths < 100 {
        hundredths + 1
    } else {
        hundredths
    }
}

/// The scale, in hundredths, that `ticks` ticks make of `start`.
pub open spec fn after(start: nat, ticks: nat) -> nat
    decreases ticks,
{
    if ticks == 0 {
        start
    } else {
        step(after(start, (ticks - 1) as nat))
    }
}

/// From a start that is at most full, every tick adds one hundredth until the
/// scale is full, and from then on it stays full: it never falls and never
/// exceeds the full strength.
pub proof fn lemma_ramp(start: nat, ticks: nat)
    requires
        start <= 100,
    ensures
        after(start, ticks) == if start + ticks <= 100 {
            start + ticks
        } else {
            100
        },
        after(start, ticks) <= after(start, ticks + 1) <= 100,
    decreases ticks,
{
    if ticks > 0 {
        lemma_ramp(start, (ticks - 1) as nat);
    }
}

/// The global multiplier of all forces, counted in hundredths so that each
/// tick's increase is exact. It starts at one hundredth and is never more
/// than a hundred of them.
#[derive(Clone, Copy, Debug)]
pub struct ForceScale {
    hundredths: u32,
}

impl ForceScale {
    #[verifier::type_invariant]
    spec fn in_range(&self) -> bool {
        self.hundredths <= 100
    }

    /// The scale in hundredths.
    pub closed spec fn view(&self) -> nat {
        self.hundredths as nat
    }

    /// The scale at the start of a run: one hundredth.
    pub fn new() -> (scale: ForceScale)
        ensures
            scale@ == 1,
    {
        ForceScale { hundredths: 1 }
    }

    /// The scale in hundredths, between 0 and 100.
    pub fn hundredths(&self) -> (h: u32)
        ensures
            h == self@,
            h <= 100,
    {
        proof {
            use_type_invariant(self);
        }
        self.hundredths
    }

    /// Whether the scale has reached the full strength.
    pub fn is_full(&self) -> (full: bool)
        ensures
            full == (self@ == 100),
    {
        proof {
            use_type_invariant(self);
        }
        self.hundredths >= FULL_SCALE
    }

    /// One tick: the scale grows by one hundredth, unless it is full.
    pub fn advance(&mut self)
        ensures
            final(self)@ == step(old(self)@),
            old(self)@ <= final(self)@ <= 100,
    {
        proof {
            use_type_invariant(&*self);
        }
        if self.hundredths < FULL_SCALE {
            self.hundredths += 1;
        }
    }
}

} // verus!
