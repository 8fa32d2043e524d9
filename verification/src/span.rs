//! A length of time, with the saturating arithmetic the timeline's
//! timing math runs on.
//!
//! It spans exactly the values a `core::time::Duration` can hold
//! (whole seconds in a `u64`, plus up to a second less a nanosecond),
//! counted in nanoseconds, and saturates where `Duration` saturates.

use vstd::prelude::*;

verus! {

/// Nanoseconds per second.
pub const NANOS_PER_SEC: u128 = 1_000_000_000u128;

/// Nanoseconds per millisecond.
pub const NANOS_PER_MILLI: u128 = 1_000_000u128;

/// The longest span there is: `u64::MAX` seconds and 999_999_999
/// nanoseconds, the same as `Duration::MAX`.
pub const MAX_NANOS: u128 = 18_446_744_073_709_551_615_999_999_999u128;

/// The longest span, in nanoseconds, as a mathematical number.
pub open spec fn max_nanos() -> nat {
    MAX_NANOS as nat
}

/// `a + b`, held at the longest span.
pub open spec fn sat_add(a: nat, b: nat) -> nat {
    if a + b > max_nanos() {
        max_nanos()
    } else {
        a + b
    }
}

/// `a - b`, held at zero.
pub open spec fn sat_sub(a: nat, b: nat) -> nat {
    if a >= b {
        (a - b) as nat
    } else {
        0
    }
}

/// `a * n`, held at the longest span.
pub open spec fn sat_mul(a: nat, n: nat) -> nat {
    if a * n > max_nanos() {
        max_nanos()
    } else {
        a * n
    }
}

/// A length of time, counted in nanoseconds.
#[derive(Clone, Copy, Debug, PartialEq, Eq, Hash, Structural)]
pub struct Span {
    nanos: u128,
}

impl View for Span {
    type V = nat;

    /// The span's length in nanoseconds.
    closed spec fn view(&self) -> nat {
        self.nanos as nat
    }
}

/// Two spans of the same length are the same span.
pub proof fn lemma_same_length(a: Span, b: Span)
    requires
        a@ == b@,
    ensures
        a == b,
{
}

impl Span {
    #[verifier::type_invariant]
    closed spec fn fits(self) -> bool {
        self.nanos <= MAX_NANOS
    }

    /// No time at all.
    pub fn zero() -> (r: Span)
        ensures
            r@ == 0,
    {
        Span { nanos: 0 }
    }

    /// The longest span there is.
    pub fn max_value() -> (r: Span)
        ensures
            r@ == max_nanos(),
    {
        Span { nanos: MAX_NANOS }
    }

    /// `secs` whole seconds.
    pub fn from_secs(secs: u64) -> (r: Span)
        ensures
            r@ == secs * NANOS_PER_SEC,
    {
        assert(secs * NANOS_PER_SEC <= MAX_NANOS) by (nonlinear_arith)
            requires
                secs <= u64::MAX,
        ;
        Span { nanos: secs as u128 * NANOS_PER_SEC }
    }

    /// `millis` milliseconds.
    pub fn from_millis(millis: u64) -> (r: Span)
        ensures
            r@ == millis * NANOS_PER_MILLI,
    {
        assert(millis * NANOS_PER_MILLI <= MAX_NANOS) by (nonlinear_arith)
            requires
                millis <= u64::MAX,
        ;
        Span { nanos: millis as u128 * NANOS_PER_MILLI }
    }

    /// `secs` whole seconds plus `nanos` nanoseconds, the parts a
    /// `Duration` is made of. Nanoseconds past a second carry into
    /// the seconds, and the total holds at the longest span.
    pub fn from_parts(secs: u64, nanos: u32) -> (r: Span)
        ensures
            r@ == sat_add((secs * NANOS_PER_SEC) as nat, nanos as nat),
    {
        assert(secs * NANOS_PER_SEC + nanos <= u128::MAX) by (nonlinear_arith)
            requires
                secs <= u64::MAX,
                nanos <= u32::MAX,
        ;
        let total = secs as u128 * NANOS_PER_SEC + nanos as u128;
        if total > MAX_NANOS {
            Span { nanos: MAX_NANOS }
        } else {
            Span { nanos: total }
        }
    }

    /// The span's length in nanoseconds.
    pub fn as_nanos(&self) -> (r: u128)
        ensures
            r == self@,
            r <= MAX_NANOS,
    {
        proof {
            use_type_invariant(self);
        }
        self.nanos
    }

    /// The span's length in whole milliseconds, rounded down.
    pub fn as_millis(&self) -> (r: u128)
        ensures
            r == self@ / (NANOS_PER_MILLI as nat),
    {
        self.nanos / NANOS_PER_MILLI
    }

    /// The span's whole seconds.
    pub fn whole_secs(&self) -> (r: u64)
        ensures
            r == self@ / (NANOS_PER_SEC as nat),
    {
        proof {
            use_type_invariant(self);
        }
        assert(self.nanos / NANOS_PER_SEC <= u64::MAX) by (nonlinear_arith)
            requires
                self.nanos <= MAX_NANOS,
        ;
        (self.nanos / NANOS_PER_SEC) as u64
    }

    /// The nanoseconds past the span's whole seconds.
    pub fn subsec_nanos(&self) -> (r: u32)
        ensures
            r == self@ % (NANOS_PER_SEC as nat),
    {
        (self.nanos % NANOS_PER_SEC) as u32
    }

    /// Whether this is no time at all.
    pub fn is_zero(&self) -> (r: bool)
        ensures
            r == (self@ == 0),
    {
        self.nanos == 0
    }

    /// Whether `self` is strictly shorter than `other`.
    pub fn lt(&self, other: &Span) -> (r: bool)
        ensures
            r == (self@ < other@),
    {
        self.nanos < other.nanos
    }

    /// Whether `self` is no longer than `other`.
    pub fn le(&self, other: &Span) -> (r: bool)
        ensures
            r == (self@ <= other@),
    {
        self.nanos <= other.nanos
    }

    /// Whether `self` and `other` are equally long.
    pub fn same(&self, other: &Span) -> (r: bool)
        ensures
            r == (self@ == other@),
    {
        self.nanos == other.nanos
    }

    /// The longer of the two.
    pub fn max(self, other: Span) -> (r: Span)
        ensures
            r@ == if self@ >= other@ { self@ } else { other@ },
    {
        if self.nanos >= other.nanos {
            self
        } else {
            other
        }
    }

    /// The shorter of the two.
    pub fn min(self, other: Span) -> (r: Span)
        ensures
            r@ == if self@ <= other@ { self@ } else { other@ },
    {
        if self.nanos <= other.nanos {
            self
        } else {
            other
        }
    }

    /// `self + other`, held at the longest span.
    pub fn saturating_add(self, other: Span) -> (r: Span)
        ensures
            r@ == sat_add(self@, other@),
    {
        proof {
            use_type_invariant(&self);
            use_type_invariant(&other);
        }
        let total = self.nanos + other.nanos;
        if total > MAX_NANOS {
            Span { nanos: MAX_NANOS }
        } else {
            Span { nanos: total }
        }
    }

    /// `self - other`, held at zero.
    pub fn saturating_sub(self, other: Span) -> (r: Span)
        ensures
            r@ == sat_sub(self@, other@),
    {
        proof {
            use_type_invariant(&self);
        }
        if self.nanos >= other.nanos {
            Span { nanos: self.nanos - other.nanos }
        } else {
            Span { nanos: 0 }
        }
    }

    /// `self * n`, held at the longest span.
    pub fn saturating_mul(self, n: u32) -> (r: Span)
        ensures
            r@ == sat_mul(self@, n as nat),
    {
        proof {
            use_type_invariant(&self);
        }
        assert(self.nanos * n <= u128::MAX) by (nonlinear_arith)
            requires
                self.nanos <= MAX_NANOS,
                n <= u32::MAX,
        ;
        let total = self.nanos * (n as u128);
        if total > MAX_NANOS {
            Span { nanos: MAX_NANOS }
        } else {
            Span { nanos: total }
        }
    }
}

} // verus!
