use conservation_protocol::violation::{ConservationReading, ViolationDetector, ViolationError, ViolationReport};

fn reading(detector: &ViolationDetector, gamma: f64, eta: f64) -> ConservationReading {
    let c = f64::from_bits(detector.c_bits);
    let tolerance = f64::from_bits(detector.tolerance_bits);
    let sum = gamma + eta;
    let deviation = sum - c;
    ConservationReading {
        gamma_bits: gamma.to_bits(),
        eta_bits: eta.to_bits(),
        sum_bits: sum.to_bits(),
        deviation_bits: deviation.to_bits(),
        within_tolerance: (sum - c).abs() <= tolerance,
        exceeds_tolerance: deviation.abs() > tolerance,
    }
}

fn detector(c: f64, tolerance: f64) -> ViolationDetector {
    ViolationDetector::new(c.to_bits(), tolerance.to_bits())
}

#[test]
fn test_detect_records_violation() {
    let mut detector = detector(10.0, 0.01);
    let r = reading(&detector, 6.0, 3.0);
    let result = detector.detect_reading(&r, (-0.5f64).to_bits(), vec!["a".into()]);
    assert!(result.is_err());
    assert_eq!(detector.violation_count(), 1);
}

#[test]
fn test_detect_no_violation() {
    let mut detector = detector(10.0, 0.01);
    let r = reading(&detector, 6.0, 4.0);
    let result = detector.detect_reading(&r, 0.0f64.to_bits(), vec![]);
    assert!(result.is_ok());
    assert_eq!(detector.violation_count(), 0);
}

#[test]
fn test_clear_history() {
    let mut detector = detector(10.0, 0.01);
    let r = reading(&detector, 6.0, 3.0);
    detector.detect_reading(&r, 0.0f64.to_bits(), vec![]).ok();
    assert_eq!(detector.violation_count(), 1);
    detector.clear_history();
    assert_eq!(detector.violation_count(), 0);
}

#[test]
fn test_violation_report_has_violations() {
    let report = ViolationReport {
        conservation_ok: false,
        deviation_bits: 1.0f64.to_bits(),
        negative_eigenvalues: vec![],
        conservation_violation: None,
        eigenvalue_violations: vec![],
        corrected_gamma_bits: 5.0f64.to_bits(),
        corrected_eta_bits: 5.0f64.to_bits(),
    };
    assert!(report.has_violations());
}

#[test]
fn detect_reports_the_violated_sum() {
    let mut detector = detector(10.0, 0.01);
    let r = reading(&detector, 6.0, 3.0);
    let result = detector.detect_reading(&r, (-0.5f64).to_bits(), vec!["a".into()]);
    assert_eq!(
        result,
        Err(ViolationError::ConservationViolated {
            gamma_bits: 6.0f64.to_bits(),
            eta_bits: 3.0f64.to_bits(),
            sum_bits: 9.0f64.to_bits(),
            c_bits: 10.0f64.to_bits(),
        })
    );
    let v = &detector.violations[0];
    assert_eq!(f64::from_bits(v.deviation_bits), -1.0);
    assert_eq!(f64::from_bits(v.eigenvalue_bits), -0.5);
    assert_eq!(v.agents, vec!["a".to_string()]);
}

#[test]
fn full_check_report_assembly() {
    let mut detector = detector(10.0, 0.01);
    let r = reading(&detector, 6.0, 3.0);
    let report = detector.full_check_reading(
        &r,
        vec![(-2.0f64).to_bits()],
        7.0f64.to_bits(),
        3.0f64.to_bits(),
        vec!["agent-0".into()],
    );
    assert!(!report.conservation_ok);
    assert!(report.has_violations());
    assert!(report.conservation_violation.is_some());
    assert_eq!(report.eigenvalue_violations.len(), 1);
    assert_eq!(f64::from_bits(report.eigenvalue_violations[0].eigenvalue_bits), -2.0);
    assert_eq!(f64::from_bits(report.corrected_gamma_bits), 7.0);
    assert_eq!(detector.violation_count(), 1);

    let clean = reading(&detector, 6.0, 4.0);
    let report = detector.full_check_reading(&clean, vec![], 0, 0, vec![]);
    assert!(report.conservation_ok);
    assert!(!report.has_violations());
    assert!(report.conservation_violation.is_none());
    assert_eq!(f64::from_bits(report.corrected_gamma_bits), 6.0);
    assert_eq!(f64::from_bits(report.corrected_eta_bits), 4.0);
    assert_eq!(detector.violation_count(), 1);
}

#[test]
fn nan_deviation_fails_conservation_without_recording() {
    let mut detector = detector(10.0, 0.01);
    let r = reading(&detector, f64::NAN, 1.0);
    assert!(!r.within_tolerance && !r.exceeds_tolerance);
    let report = detector.full_check_reading(&r, vec![], 1, 2, vec![]);
    assert!(!report.conservation_ok);
    assert_eq!(report.corrected_gamma_bits, 1);
    assert_eq!(detector.violation_count(), 0);
}
