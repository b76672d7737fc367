//! Violation detection for the conservation law γ + η = C: the record of violations and the
//! report of a full check. The arithmetic on γ, η and C (binary64 numbers) is done by the
//! caller, which hands the outcome over as a [`ConservationReading`].
use vstd::prelude::*;
use crate::binary64::ZERO_BITS;

verus! {

/// Errors for violation operations. Numbers are binary64 bit patterns.
#[derive(Debug, Clone, PartialEq, Eq, Structural)]
pub enum ViolationError {
    /// γ + η is farther from C than the tolerance allows.
    ConservationViolated { gamma_bits: u64, eta_bits: u64, sum_bits: u64, c_bits: u64 },
    /// A negative eigenvalue was found.
    NegativeEigenvalue { eigenvalue_bits: u64 },
    /// Nothing needs correcting.
    NoCorrectionNeeded,
}

/// A detected violation. Numbers are binary64 bit patterns.
#[derive(Debug, Clone, PartialEq)]
pub struct Violation {
    /// The γ component.
    pub gamma_bits: u64,
    /// The η component.
    pub eta_bits: u64,
    /// The conserved quantity C.
    pub c_bits: u64,
    /// The deviation (γ + η) − C.
    pub deviation_bits: u64,
    /// The eigenvalue associated with the violation (negative means a violation).
    pub eigenvalue_bits: u64,
    /// The agents involved.
    pub agents: Vec<String>,
}

/// The outcome of the arithmetic of one conservation check of (γ, η) against a detector's C
/// and tolerance. Numbers are binary64 bit patterns.
#[derive(Debug, Clone, Copy, PartialEq, Eq, Structural)]
pub struct ConservationReading {
    /// γ.
    pub gamma_bits: u64,
    /// η.
    pub eta_bits: u64,
    /// γ + η.
    pub sum_bits: u64,
    /// (γ + η) − C.
    pub deviation_bits: u64,
    /// Whether |(γ + η) − C| ≤ tolerance.
    pub within_tolerance: bool,
    /// Whether |(γ + η) − C| > tolerance (both are false when the deviation is not a number).
    pub exceeds_tolerance: bool,
}

/// Violation detector: the conserved quantity, the tolerance, and the violations recorded so
/// far. Numbers are binary64 bit patterns.
#[derive(Debug, Clone, PartialEq)]
pub struct ViolationDetector {
    /// The conserved quantity C.
    pub c_bits: u64,
    /// Tolerance for conservation checks.
    pub tolerance_bits: u64,
    /// History of detected violations.
    pub violations: Vec<Violation>,
}

/// A report from a full violation check. Numbers are binary64 bit patterns.
#[derive(Debug, Clone, PartialEq)]
pub struct ViolationReport {
    /// Whether conservation holds.
    pub conservation_ok: bool,
    /// The deviation from conservation.
    pub deviation_bits: u64,
    /// The negative eigenvalues detected.
    pub negative_eigenvalues: Vec<u64>,
    /// The conservation violation, if any.
    pub conservation_violation: Option<Violation>,
    /// One violation per negative eigenvalue.
    pub eigenvalue_violations: Vec<Violation>,
    /// γ after harmonic correction.
    pub corrected_gamma_bits: u64,
    /// η after harmonic correction.
    pub corrected_eta_bits: u64,
}

/// Whether `v` records the given numbers and agents.
pub open spec fn violation_is(
    v: Violation,
    gamma: u64,
    eta: u64,
    c: u64,
    deviation: u64,
    eigenvalue: u64,
    agents: Seq<String>,
) -> bool {
    &&& v.gamma_bits == gamma
    &&& v.eta_bits == eta
    &&& v.c_bits == c
    &&& v.deviation_bits == deviation
    &&& v.eigenvalue_bits == eigenvalue
    &&& v.agents@ == agents
}

/// A copy of a list of agent names.
fn copy_agents(agents: &Vec<String>) -> (c: Vec<String>)
    ensures
        c@ == agents@,
{
    let mut c: Vec<String> = Vec::new();
    let mut i: usize = 0;
    while i < agents.len()
        invariant
            i <= agents@.len(),
            c@ == agents@.take(i as int),
        decreases agents@.len() - i,
    {
        c.push(agents[i].clone());
        i = i + 1;
        assert(c@ =~= agents@.take(i as int));
    }
    assert(agents@.take(i as int) =~= agents@);
    c
}

impl ViolationDetector {
    /// A detector for the conserved quantity C with the given tolerance and no violations.
    pub fn new(c_bits: u64, tolerance_bits: u64) -> (d: Self)
        ensures
            d.c_bits == c_bits,
            d.tolerance_bits == tolerance_bits,
            d.violations@.len() == 0,
    {
        ViolationDetector { c_bits, tolerance_bits, violations: Vec::new() }
    }

    /// Act on a conservation reading: when the deviation exceeds the tolerance, record a
    /// violation with the given eigenvalue and agents and report it; otherwise record nothing.
    pub fn detect_reading(
        &mut self,
        reading: &ConservationReading,
        eigenvalue_bits: u64,
        agents: Vec<String>,
    ) -> (r: Result<(), ViolationError>)
        ensures
            final(self).c_bits == old(self).c_bits,
            final(self).tolerance_bits == old(self).tolerance_bits,
            reading.exceeds_tolerance ==> {
                &&& r == Err::<(), ViolationError>(
                    ViolationError::ConservationViolated {
                        gamma_bits: reading.gamma_bits,
                        eta_bits: reading.eta_bits,
                        sum_bits: reading.sum_bits,
                        c_bits: old(self).c_bits,
                    },
                )
                &&& final(self).violations@.len() == old(self).violations@.len() + 1
                &&& final(self).violations@.drop_last() == old(self).violations@
                &&& violation_is(
                    final(self).violations@.last(),
                    reading.gamma_bits,
                    reading.eta_bits,
                    old(self).c_bits,
                    reading.deviation_bits,
                    eigenvalue_bits,
                    agents@,
                )
            },
            !reading.exceeds_tolerance ==> r is Ok && final(self).violations@ == old(self).violations@,
    {
        if reading.exceeds_tolerance {
            let violation = Violation {
                gamma_bits: reading.gamma_bits,
                eta_bits: reading.eta_bits,
                c_bits: self.c_bits,
                deviation_bits: reading.deviation_bits,
                eigenvalue_bits,
                agents,
            };
            self.violations.push(violation);
            assert(self.violations@.drop_last() =~= old(self).violations@);
            Err(
                ViolationError::ConservationViolated {
                    gamma_bits: reading.gamma_bits,
                    eta_bits: reading.eta_bits,
                    sum_bits: reading.sum_bits,
                    c_bits: self.c_bits,
                },
            )
        } else {
            Ok(())
        }
    }

    /// Assemble the report of a full check from a conservation reading, the negative
    /// eigenvalues found and the harmonic correction of (γ, η). When conservation fails, the
    /// violation is also detected as by [`ViolationDetector::detect_reading`] with eigenvalue
    /// zero; the report then carries the corrected values, and otherwise (γ, η) unchanged.
    pub fn full_check_reading(
        &mut self,
        reading: &ConservationReading,
        negative_eigenvalues: Vec<u64>,
        harmonic_gamma_bits: u64,
        harmonic_eta_bits: u64,
        agents: Vec<String>,
    ) -> (report: ViolationReport)
        ensures
            final(self).c_bits == old(self).c_bits,
            final(self).tolerance_bits == old(self).tolerance_bits,
            report.conservation_ok == reading.within_tolerance,
            report.deviation_bits == reading.deviation_bits,
            report.negative_eigenvalues@ == negative_eigenvalues@,
            reading.within_tolerance ==> report.conservation_violation is None,
            !reading.within_tolerance ==> (report.conservation_violation matches Some(v) && violation_is(
                v,
                reading.gamma_bits,
                reading.eta_bits,
                old(self).c_bits,
                reading.deviation_bits,
                ZERO_BITS,
                agents@,
            )),
            report.eigenvalue_violations@.len() == negative_eigenvalues@.len(),
            forall|k: int|
                0 <= k < negative_eigenvalues@.len() ==> violation_is(
                    #[trigger] report.eigenvalue_violations@[k],
                    reading.gamma_bits,
                    reading.eta_bits,
                    old(self).c_bits,
                    ZERO_BITS,
                    negative_eigenvalues@[k],
                    agents@,
                ),
            report.corrected_gamma_bits == if reading.within_tolerance {
                reading.gamma_bits
            } else {
                harmonic_gamma_bits
            },
            report.corrected_eta_bits == if reading.within_tolerance {
                reading.eta_bits
            } else {
                harmonic_eta_bits
            },
            !reading.within_tolerance && reading.exceeds_tolerance ==> {
                &&& final(self).violations@.len() == old(self).violations@.len() + 1
                &&& final(self).violations@.drop_last() == old(self).violations@
                &&& violation_is(
                    final(self).violations@.last(),
                    reading.gamma_bits,
                    reading.eta_bits,
                    old(self).c_bits,
                    reading.deviation_bits,
                    ZERO_BITS,
                    agents@,
                )
            },
            !(!reading.within_tolerance && reading.exceeds_tolerance) ==> final(self).violations@
                == old(self).violations@,
    {
        let conservation_ok = reading.within_tolerance;
        let conservation_violation = if !conservation_ok {
            let _ = self.detect_reading(reading, ZERO_BITS, copy_agents(&agents));
            Some(
                Violation {
                    gamma_bits: reading.gamma_bits,
                    eta_bits: reading.eta_bits,
                    c_bits: self.c_bits,
                    deviation_bits: reading.deviation_bits,
                    eigenvalue_bits: ZERO_BITS,
                    agents: copy_agents(&agents),
                },
            )
        } else {
            None
        };
        let mut eigenvalue_violations: Vec<Violation> = Vec::new();
        let mut k: usize = 0;
        while k < negative_eigenvalues.len()
            invariant
                k <= negative_eigenvalues@.len(),
                eigenvalue_violations@.len() == k,
                self.c_bits == old(self).c_bits,
                forall|j: int|
                    0 <= j < k ==> violation_is(
                        #[trigger] eigenvalue_violations@[j],
                        reading.gamma_bits,
                        reading.eta_bits,
                        old(self).c_bits,
                        ZERO_BITS,
                        negative_eigenvalues@[j],
                        agents@,
                    ),
            decreases negative_eigenvalues@.len() - k,
        {
            eigenvalue_violations.push(
                Violation {
                    gamma_bits: reading.gamma_bits,
                    eta_bits: reading.eta_bits,
                    c_bits: self.c_bits,
                    deviation_bits: ZERO_BITS,
                    eigenvalue_bits: negative_eigenvalues[k],
                    agents: copy_agents(&agents),
                },
            );
            k = k + 1;
        }
        let (corrected_gamma_bits, corrected_eta_bits) = if !conservation_ok {
            (harmonic_gamma_bits, harmonic_eta_bits)
        } else {
            (reading.gamma_bits, reading.eta_bits)
        };
        ViolationReport {
            conservation_ok,
            deviation_bits: reading.deviation_bits,
            negative_eigenvalues,
            conservation_violation,
            eigenvalue_violations,
            corrected_gamma_bits,
            corrected_eta_bits,
        }
    }

    /// The number of violations recorded.
    pub fn violation_count(&self) -> (c: usize)
        ensures
            c == self.violations@.len(),
    {
        self.violations.len()
    }

    /// Forget every recorded violation.
    pub fn clear_history(&mut self)
        ensures
            final(self).c_bits == old(self).c_bits,
            final(self).tolerance_bits == old(self).tolerance_bits,
            final(self).violations@.len() == 0,
    {
        self.violations.clear();
    }
}

impl ViolationReport {
    /// Whether any violation was detected: conservation failed or a negative eigenvalue was
    /// found.
    pub fn has_violations(&self) -> (b: bool)
        ensures
            b == (!self.conservation_ok || self.negative_eigenvalues@.len() > 0),
    {
        !self.conservation_ok || !self.negative_eigenvalues.is_empty()
    }
}

} // verus!
