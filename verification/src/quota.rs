//! Archive quota accounting: saturating byte/entry totals, running maxima
//! for nesting and latency, checked against optional limits.

use vstd::prelude::*;

verus! {

/// Optional per-archive budget limits.
#[derive(Debug)]
pub struct QuotaLimits {
    pub bytes_max: Option<u64>,
    pub entries_max: Option<u64>,
    pub nesting_max: Option<u32>,
    pub latency_budget_ms: Option<u64>,
}

impl QuotaLimits {
    pub fn duplicate(&self) -> (r: QuotaLimits)
        ensures
            r == *self,
    {
        QuotaLimits {
            bytes_max: self.bytes_max,
            entries_max: self.entries_max,
            nesting_max: self.nesting_max,
            latency_budget_ms: self.latency_budget_ms,
        }
    }
}

/// Accumulated observations.
pub struct QuotaObservation {
    pub bytes: u64,
    pub entries: u64,
    pub max_nesting: u32,
    pub max_latency_ms: u64,
}

/// One archive's measurements.
#[derive(Debug)]
pub struct ArchiveSample {
    pub bytes: u64,
    pub entries: u64,
    pub nesting_depth: u32,
    pub max_latency_ms: u64,
}

/// Totals and budgets reported when a quota check fails; absent limits are
/// reported as the observed values.
#[derive(Debug)]
pub struct QuotaDiagnostics {
    pub bytes_limit: u64,
    pub entries_limit: u64,
    pub nesting_limit: u32,
    pub bytes_observed: u64,
    pub entries_observed: u64,
    pub nesting_observed: u32,
    pub latency_budget_ms: Option<u64>,
}

#[derive(Debug)]
pub enum QuotaError {
    Exceeded { diagnostics: QuotaDiagnostics },
}

/// Whether any populated limit is exceeded by the observations.
pub open spec fn quota_exceeded(limits: QuotaLimits, obs: QuotaObservation) -> bool {
    ||| (limits.bytes_max matches Some(l) && obs.bytes > l)
    ||| (limits.entries_max matches Some(l) && obs.entries > l)
    ||| (limits.nesting_max matches Some(l) && obs.max_nesting > l)
    ||| (limits.latency_budget_ms matches Some(l) && obs.max_latency_ms > l)
}

/// The diagnostics reported for given limits and observations.
pub open spec fn diagnostics_of(limits: QuotaLimits, obs: QuotaObservation) -> QuotaDiagnostics {
    QuotaDiagnostics {
        bytes_limit: match limits.bytes_max {
            Some(l) => l,
            None => obs.bytes,
        },
        entries_limit: match limits.entries_max {
            Some(l) => l,
            None => obs.entries,
        },
        nesting_limit: match limits.nesting_max {
            Some(l) => l,
            None => obs.max_nesting,
        },
        bytes_observed: obs.bytes,
        entries_observed: obs.entries,
        nesting_observed: obs.max_nesting,
        latency_budget_ms: Some(obs.max_latency_ms),
    }
}

/// The observation state after absorbing one sample.
pub open spec fn observe_spec(obs: QuotaObservation, s: ArchiveSample) -> QuotaObservation {
    QuotaObservation {
        bytes: if obs.bytes + s.bytes > u64::MAX {
            u64::MAX
        } else {
            (obs.bytes + s.bytes) as u64
        },
        entries: if obs.entries + s.entries > u64::MAX {
            u64::MAX
        } else {
            (obs.entries + s.entries) as u64
        },
        max_nesting: if obs.max_nesting >= s.nesting_depth {
            obs.max_nesting
        } else {
            s.nesting_depth
        },
        max_latency_ms: if obs.max_latency_ms >= s.max_latency_ms {
            obs.max_latency_ms
        } else {
            s.max_latency_ms
        },
    }
}

/// Accumulates archive samples against optional limits.
pub struct ArchiveQuotaTracker {
    pub limits: QuotaLimits,
    pub observed: QuotaObservation,
}

impl ArchiveQuotaTracker {
    pub fn new(limits: QuotaLimits) -> (r: ArchiveQuotaTracker)
        ensures
            r.limits == limits,
            r.observed == (QuotaObservation { bytes: 0, entries: 0, max_nesting: 0, max_latency_ms: 0 }),
    {
        ArchiveQuotaTracker {
            limits,
            observed: QuotaObservation { bytes: 0, entries: 0, max_nesting: 0, max_latency_ms: 0 },
        }
    }

    /// Absorb one sample: totals add saturating, maxima take the larger.
    pub fn observe(&mut self, sample: &ArchiveSample)
        ensures
            final(self).observed == observe_spec(old(self).observed, *sample),
            final(self).limits == old(self).limits,
    {
        self.observed.bytes = self.observed.bytes.saturating_add(sample.bytes);
        self.observed.entries = self.observed.entries.saturating_add(sample.entries);
        if sample.nesting_depth > self.observed.max_nesting {
            self.observed.max_nesting = sample.nesting_depth;
        }
        if sample.max_latency_ms > self.observed.max_latency_ms {
            self.observed.max_latency_ms = sample.max_latency_ms;
        }
    }

    /// Fails exactly when a populated limit is exceeded, reporting the
    /// diagnostics.
    pub fn check(&self) -> (r: Result<(), QuotaError>)
        ensures
            r is Err <==> quota_exceeded(self.limits, self.observed),
            r matches Err(e) ==> e == (QuotaError::Exceeded {
                diagnostics: diagnostics_of(self.limits, self.observed),
            }),
    {
        let diagnostics = self.diagnostics();
        let mut exceeded = false;
        match self.limits.bytes_max {
            Some(limit) => {
                if diagnostics.bytes_observed > limit {
                    exceeded = true;
                }
            },
            None => {},
        }
        match self.limits.entries_max {
            Some(limit) => {
                if diagnostics.entries_observed > limit {
                    exceeded = true;
                }
            },
            None => {},
        }
        match self.limits.nesting_max {
            Some(limit) => {
                if diagnostics.nesting_observed > limit {
                    exceeded = true;
                }
            },
            None => {},
        }
        match self.limits.latency_budget_ms {
            Some(limit) => {
                match diagnostics.latency_budget_ms {
                    Some(value) => {
                        if value > limit {
                            exceeded = true;
                        }
                    },
                    None => {},
                }
            },
            None => {},
        }
        if exceeded {
            Err(QuotaError::Exceeded { diagnostics })
        } else {
            Ok(())
        }
    }

    /// Observed totals, with absent limits reported as the observed values.
    pub fn diagnostics(&self) -> (r: QuotaDiagnostics)
        ensures
            r == diagnostics_of(self.limits, self.observed),
    {
        QuotaDiagnostics {
            bytes_limit: match self.limits.bytes_max {
                Some(l) => l,
                None => self.observed.bytes,
            },
            entries_limit: match self.limits.entries_max {
                Some(l) => l,
                None => self.observed.entries,
            },
            nesting_limit: match self.limits.nesting_max {
                Some(l) => l,
                None => self.observed.max_nesting,
            },
            bytes_observed: self.observed.bytes,
            entries_observed: self.observed.entries,
            nesting_observed: self.observed.max_nesting,
            latency_budget_ms: Some(self.observed.max_latency_ms),
        }
    }

    pub fn limits(&self) -> (r: &QuotaLimits)
        ensures
            *r == self.limits,
    {
        &self.limits
    }
}

/// The diagnostics with the reported latency budget raised to at least the
/// configured one.
pub open spec fn merged_diagnostics(d: QuotaDiagnostics, limits: QuotaLimits) -> QuotaDiagnostics {
    match limits.latency_budget_ms {
        Some(limit) => QuotaDiagnostics {
            latency_budget_ms: Some(
                (if (match d.latency_budget_ms {
                    Some(v) => v,
                    None => 0u64,
                }) >= limit {
                    match d.latency_budget_ms {
                        Some(v) => v,
                        None => 0u64,
                    }
                } else {
                    limit
                }),
            ),
            ..d
        },
        None => d,
    }
}

impl QuotaDiagnostics {
    /// Raise the reported latency budget to at least the configured one.
    pub fn merge_with_limits(self, limits: &QuotaLimits) -> (r: QuotaDiagnostics)
        ensures
            r == merged_diagnostics(self, *limits),
    {
        let mut out = self;
        match limits.latency_budget_ms {
            Some(limit) => {
                let current: u64 = match out.latency_budget_ms {
                    Some(v) => v,
                    None => 0,
                };
                let raised: u64 = if current >= limit {
                    current
                } else {
                    limit
                };
                out.latency_budget_ms = Some(raised);
            },
            None => {},
        }
        out
    }
}

} // verus!
