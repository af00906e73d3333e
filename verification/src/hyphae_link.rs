//! Individual hyphae link: bandwidth, latency, error profile.
//!
//! Each fungal hypha has physical characteristics: how wide it is (bandwidth),
//! how far it stretches (latency), and how error-prone its transmission is.
//!
//! Quantities are fixed-point integers: probabilities and rates are in
//! units of 10^-18 (`UNIT` stands for 1.0), latencies are in microseconds.
use vstd::prelude::*;
use crate::ident::{pair_key, pair_key_of};

verus! {

/// One whole (probability 1.0), in units of 10^-18.
pub const UNIT: u64 = 1_000_000_000_000_000_000;

/// Latency given to a link that is built without one: one millisecond.
pub const DEFAULT_LATENCY_US: u64 = 1_000;

/// `UNIT - x`, or 0 when `x` is at least `UNIT`.
pub open spec fn unit_complement(x: u64) -> u64 {
    if x >= UNIT {
        0
    } else {
        (UNIT - x) as u64
    }
}

/// Error profile for a hyphae link (rates in units of 10^-18).
#[derive(Debug, Clone, PartialEq, Eq, Structural)]
pub enum ErrorProfile {
    /// Random bit errors at a steady rate.
    Random { ber: u64 },
    /// Burst errors: errors come in clumps of given length at given frequency.
    Burst { burst_length: usize, burst_frequency: u64 },
    /// Mixed: both random and burst components.
    Mixed { ber: u64, burst_length: usize, burst_frequency: u64 },
}

/// A single hyphae link between two mesh nodes.
#[derive(Debug, Clone)]
pub struct HyphaeLink {
    pub from: String,
    pub to: String,
    /// Bandwidth in bits per second.
    pub bandwidth: u64,
    /// Base error rate (probability of bit error), in units of 10^-18.
    pub error_rate: u64,
    /// Latency in microseconds.
    pub latency: u64,
    /// Error profile for detailed modeling.
    pub error_profile: ErrorProfile,
}

impl HyphaeLink {
    /// Reliability of a link: `1 - error_rate`, within `[0, UNIT]`.
    pub open spec fn spec_reliability(self) -> u64 {
        unit_complement(self.error_rate)
    }

    /// Create a new link with the default latency and a random error profile
    /// at the link's error rate.
    pub fn new(from: &str, to: &str, bandwidth: u64, error_rate: u64) -> (r: Self)
        ensures
            r.from@ == from@,
            r.to@ == to@,
            r.bandwidth == bandwidth,
            r.error_rate == error_rate,
            r.latency == DEFAULT_LATENCY_US,
            r.error_profile == (ErrorProfile::Random { ber: error_rate }),
    {
        HyphaeLink {
            from: from.to_owned(),
            to: to.to_owned(),
            bandwidth,
            error_rate,
            latency: DEFAULT_LATENCY_US,
            error_profile: ErrorProfile::Random { ber: error_rate },
        }
    }

    /// Create with full parameters.
    pub fn with_details(
        from: &str,
        to: &str,
        bandwidth: u64,
        error_rate: u64,
        latency: u64,
        error_profile: ErrorProfile,
    ) -> (r: Self)
        ensures
            r.from@ == from@,
            r.to@ == to@,
            r.bandwidth == bandwidth,
            r.error_rate == error_rate,
            r.latency == latency,
            r.error_profile == error_profile,
    {
        HyphaeLink { from: from.to_owned(), to: to.to_owned(), bandwidth, error_rate, latency, error_profile }
    }

    /// Reliability of this link: probability of successful transmission,
    /// `1 - error_rate` clamped to `[0, 1]`.
    pub fn reliability(&self) -> (r: u64)
        ensures
            r == self.spec_reliability(),
            r <= UNIT,
    {
        if self.error_rate >= UNIT {
            0
        } else {
            UNIT - self.error_rate
        }
    }

    /// Unique identifier for this link (undirected): `a-b` with `a` the
    /// smaller endpoint.
    pub fn id(&self) -> (r: String)
        ensures
            r@ == pair_key(self.from@, self.to@),
    {
        pair_key_of(self.from.as_str(), self.to.as_str())
    }

    /// A field-by-field copy.
    pub(crate) fn duplicate(&self) -> (r: Self)
        ensures
            r == *self,
    {
        let p = match &self.error_profile {
            ErrorProfile::Random { ber } => ErrorProfile::Random { ber: *ber },
            ErrorProfile::Burst { burst_length, burst_frequency } => ErrorProfile::Burst {
                burst_length: *burst_length,
                burst_frequency: *burst_frequency,
            },
            ErrorProfile::Mixed { ber, burst_length, burst_frequency } => ErrorProfile::Mixed {
                ber: *ber,
                burst_length: *burst_length,
                burst_frequency: *burst_frequency,
            },
        };
        HyphaeLink {
            from: self.from.clone(),
            to: self.to.clone(),
            bandwidth: self.bandwidth,
            error_rate: self.error_rate,
            latency: self.latency,
            error_profile: p,
        }
    }
}

} // verus!
