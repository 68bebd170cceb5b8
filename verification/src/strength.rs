//! Strengths: scalars between zero and one that grow when a node is used
//! and decay as time passes.
//!
//! A strength is held in fixed point: its *level* is a whole number of
//! `UNIT`-ths, so level `0` is the value zero and level `UNIT` is the value one.
use vstd::prelude::*;

verus! {

/// The level that stands for the value one.
pub const UNIT: u64 = 1_000_000_000;

/// The divisor of one step: a step moves a twentieth of the remaining way.
pub const STEP_DIVISOR: u64 = 20;

/// A scalar in `[0, 1]` with a growth step and a decay step.
///
/// An implementation chooses its two step functions, `grow` and `decay`, and
/// proves in `lemma_grow` and `lemma_decay` that they stay within `[0, UNIT]`,
/// that growth never lowers a level and strictly raises one below `UNIT`, and
/// that decay never raises a level and strictly lowers one above zero. On whole
/// levels this makes repeated growth reach `UNIT` and repeated decay reach zero.
pub trait Strength: Sized + Copy {
    /// The level of this strength, in `UNIT`-ths.
    spec fn level(&self) -> nat;

    /// The level that one growth step leads to.
    spec fn grow(level: nat) -> nat;

    /// The level that one decay step leads to.
    spec fn decay(level: nat) -> nat;

    /// Growth stays in range, never lowers a level, and raises any level below `UNIT`.
    proof fn lemma_grow(level: nat)
        requires
            level <= UNIT,
        ensures
            level <= Self::grow(level) <= UNIT,
            level < UNIT ==> level < Self::grow(level),
    ;

    /// Decay never raises a level, and lowers any level above zero.
    proof fn lemma_decay(level: nat)
        requires
            level <= UNIT,
        ensures
            Self::decay(level) <= level,
            level > 0 ==> Self::decay(level) < level,
    ;

    /// The zero strength, after one growth step if `incr_value` is set.
    fn new(incr_value: bool) -> (s: Self)
        ensures
            s.level() == (if incr_value { Self::grow(0) } else { 0 }),
            s.level() <= UNIT,
    ;

    /// The level as a number, between `0` and `UNIT`.
    fn value(&self) -> (v: u64)
        ensures
            v == self.level(),
            v <= UNIT,
    ;

    /// One growth step.
    fn increase(&mut self)
        ensures
            final(self).level() == Self::grow(old(self).level()),
            old(self).level() <= final(self).level() <= UNIT,
            old(self).level() < UNIT ==> old(self).level() < final(self).level(),
    ;

    /// One decay step.
    fn decrease(&mut self)
        ensures
            final(self).level() == Self::decay(old(self).level()),
            final(self).level() <= old(self).level() <= UNIT,
            old(self).level() > 0 ==> final(self).level() < old(self).level(),
    ;

    /// A copy of this strength after one growth step.
    fn incremented(&self) -> (s: Self)
        ensures
            s.level() == Self::grow(self.level()),
            self.level() <= s.level() <= UNIT,
            self.level() < UNIT ==> self.level() < s.level(),
    {
        let mut strength = *self;
        strength.increase();
        strength
    }

    /// A copy of this strength after one decay step.
    fn decremented(&self) -> (s: Self)
        ensures
            s.level() == Self::decay(self.level()),
            s.level() <= self.level() <= UNIT,
            self.level() > 0 ==> s.level() < self.level(),
    {
        let mut strength = *self;
        strength.decrease();
        strength
    }
}

/// The step of the reference strength towards one: a twentieth of the
/// remaining distance, rounded up.
pub open spec fn simple_grow(level: nat) -> nat {
    if level >= UNIT {
        UNIT as nat
    } else {
        level + ((UNIT - level + STEP_DIVISOR - 1) / (STEP_DIVISOR as int)) as nat
    }
}

/// The step of the reference strength towards zero: nineteen twentieths of
/// the level, rounded down.
pub open spec fn simple_decay(level: nat) -> nat {
    (level * (STEP_DIVISOR - 1) / (STEP_DIVISOR as int)) as nat
}

/// The reference strength: a level that moves a twentieth of the way to one
/// on growth and loses a twentieth on decay.
#[derive(Clone, Copy, Debug)]
pub struct SimpleStrength(u64);

impl SimpleStrength {
    #[verifier::type_invariant]
    spec fn in_range(self) -> bool {
        self.0 <= UNIT
    }
}

impl Strength for SimpleStrength {
    closed spec fn level(&self) -> nat {
        self.0 as nat
    }

    open spec fn grow(level: nat) -> nat {
        simple_grow(level)
    }

    open spec fn decay(level: nat) -> nat {
        simple_decay(level)
    }

    proof fn lemma_grow(level: nat) {
    }

    proof fn lemma_decay(level: nat) {
    }

    fn new(incr_value: bool) -> (s: Self) {
        let mut ss = SimpleStrength(0);
        if incr_value {
            ss.increase();
        }
        ss
    }

    fn value(&self) -> (v: u64) {
        proof {
            use_type_invariant(&*self);
        }
        self.0
    }

    fn increase(&mut self) {
        proof {
            use_type_invariant(&*self);
        }
        let step: u64 = (UNIT - self.0 + STEP_DIVISOR - 1) / STEP_DIVISOR;
        self.0 = self.0 + step;
    }

    fn decrease(&mut self) {
        proof {
            use_type_invariant(&*self);
        }
        let level: u64 = self.0;
        assert(level * 19 <= 19 * UNIT) by (nonlinear_arith)
            requires
                level <= UNIT,
        ;
        assert(level * 19 / 20 <= level);
        assert(level > 0 ==> level * 19 / 20 < level);
        self.0 = level * (STEP_DIVISOR - 1) / STEP_DIVISOR;
    }
}

impl Default for SimpleStrength {
    fn default() -> (s: Self)
        ensures
            s.level() == 0,
    {
        SimpleStrength(0)
    }
}

} // verus!
