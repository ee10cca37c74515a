use anofox_bayes_core::bridge::{
    fit_censored_aft, map_refusal, statistics_standard_errors, AftDistribution, AftFit,
    AftInference, Bridged, BridgedGaussian, CensoredAftRequest, Matrix, PriorSpec, StatsError,
    VcovType, SE_AGREEMENT_TOLERANCE,
};
use anofox_bayes_core::double::Double;
use anofox_bayes_core::errors::{BayesError, Message, Part};
use anofox_bayes_core::readiness::Readiness;
use anofox_bayes_core::types::FitStatus;

fn double(v: f64) -> Double {
    Double { bits: v.to_bits() }
}

fn doubles(v: &[f64]) -> Vec<Double> {
    v.iter().map(|x| double(*x)).collect()
}

fn render(message: &Message) -> String {
    let mut out = String::new();
    for part in &message.parts {
        match part {
            Part::Text(s) => out.push_str(s),
            Part::Number(v) => out.push_str(&format!("{}", f64::from_bits(v.bits))),
            Part::Numbers(v) => {
                let all: Vec<f64> = v.iter().map(|x| f64::from_bits(x.bits)).collect();
                out.push_str(&format!("{:?}", all));
            }
        }
    }
    out
}

fn said(e: &BayesError) -> String {
    render(&e.describe())
}

fn request(dist: AftDistribution, time: &[f64], x: &[Vec<f64>], event: &[f64]) -> CensoredAftRequest {
    CensoredAftRequest {
        dist,
        time: doubles(time),
        event: doubles(event),
        x: x.iter().map(|c| doubles(c)).collect(),
        intercept: true,
        priors: Vec::new(),
    }
}

fn matrix(diagonal: &[f64], off: f64) -> Matrix {
    Matrix {
        rows: (0..diagonal.len())
            .map(|i| {
                (0..diagonal.len())
                    .map(|j| double(if i == j { diagonal[i] } else { off }))
                    .collect()
            })
            .collect(),
    }
}

/// A reply of a model with an intercept and one slope.
fn reply(dist: AftDistribution, n: usize) -> AftFit {
    let estimated = !dist.scale_is_fixed();
    let roots: Vec<f64> = if estimated { vec![0.1, 0.2, 0.3] } else { vec![0.1, 0.2] };
    let squares: Vec<f64> = roots.iter().map(|r| r * r).collect();
    let inverses: Vec<f64> = squares.iter().map(|s| 1.0 / s).collect();
    AftFit {
        intercept: Some(double(1.5)),
        coefficients: doubles(&[0.35]),
        scale: double(if estimated { 0.6 } else { 1.0 }),
        log_scale: double(if estimated { 0.6f64.ln() } else { 0.0 }),
        n_observations: n,
        n_events: n,
        n_censored: 0,
        inference: Some(AftInference {
            information: Some(matrix(&inverses, 0.5)),
            vcov: Some(matrix(&squares, -0.001)),
            apart: vec![false; roots.len()],
            intercept_std_error: Some(double(0.1)),
            std_errors: doubles(&[0.2]),
            log_scale_std_error: if estimated { Some(double(0.3)) } else { None },
            roots: doubles(&roots),
        }),
    }
}

fn weibull(n: usize) -> CensoredAftRequest {
    let t: Vec<f64> = (0..n).map(|i| 1.0 + i as f64).collect();
    request(AftDistribution::Weibull, &t, &[t.clone()], &vec![1.0; n])
}

fn fitted(req: &CensoredAftRequest, reply: AftFit) -> BridgedGaussian {
    match fit_censored_aft(req, Ok(reply)) {
        Ok(Bridged::Fitted(g)) => *g,
        Ok(Bridged::Refused(r)) => panic!("{}", render(&r.reasons[0])),
        Err(e) => panic!("{}", said(&e)),
    }
}

fn refusal(req: &CensoredAftRequest, reply: Result<AftFit, StatsError>) -> Readiness {
    match fit_censored_aft(req, reply) {
        Ok(Bridged::Refused(r)) => r,
        Ok(Bridged::Fitted(_)) => panic!("expected a refusal"),
        Err(e) => panic!("{}", said(&e)),
    }
}

fn error(req: &CensoredAftRequest, reply: Result<AftFit, StatsError>) -> BayesError {
    match fit_censored_aft(req, reply) {
        Err(e) => e,
        Ok(_) => panic!("expected an error"),
    }
}

#[test]
fn every_aft_distribution_bridges() {
    for dist in [
        AftDistribution::Weibull,
        AftDistribution::LogNormal,
        AftDistribution::LogLogistic,
        AftDistribution::Exponential,
    ] {
        let mut req = weibull(300);
        req.dist = dist;
        let g = fitted(&req, reply(dist, 300));
        assert!(
            g.std_errors.iter().all(|s| {
                let s = f64::from_bits(s.bits);
                s.is_finite() && s > 0.0
            }),
            "{dist:?}"
        );
        assert_eq!(g.dim(), if dist.scale_is_fixed() { 2 } else { 3 });
        assert_eq!(g.fit_scale, !dist.scale_is_fixed());
        assert_eq!(AftDistribution::from_name("gompertz"), None);
    }
}

#[test]
fn every_row_censored_arrives_as_degenerate() {
    let t: Vec<f64> = (0..50).map(|i| 1.0 + i as f64).collect();
    let req = request(AftDistribution::Weibull, &t, &[t.clone()], &vec![0.0; 50]);
    let r = refusal(
        &req,
        Err(StatsError::InvalidValue {
            field: "event".to_string(),
            message: "every observation is censored, so the model is not identified".to_string(),
        }),
    );
    assert_eq!(r.status, FitStatus::Degenerate);
    assert!(render(&r.reasons[0]).contains("censored"));
    assert!(!r.status.is_actionable());
}

#[test]
fn fewer_rows_than_parameters_arrives_as_insufficient_data() {
    let req = request(
        AftDistribution::Weibull,
        &[1.0, 2.0, 3.0],
        &[vec![1.0, 2.0, 3.0]],
        &[1.0, 1.0, 1.0],
    );
    let r = refusal(&req, Err(StatsError::InsufficientData { rows: 3, cols: 3 }));
    assert_eq!(r.status, FitStatus::InsufficientData);
    assert_eq!(
        render(&r.reasons[0]),
        "3 usable rows for 3 parameters: the censored AFT posterior would be the prior"
    );
}

#[test]
fn a_non_positive_duration_is_a_request_error_and_not_a_status() {
    let req = request(
        AftDistribution::Weibull,
        &[1.0, 2.0, 0.0, 4.0, 5.0, 6.0],
        &[vec![1.0, 2.0, 3.0, 4.0, 5.0, 6.0]],
        &[1.0; 6],
    );
    let err = error(
        &req,
        Err(StatsError::InvalidValue {
            field: "time".to_string(),
            message: "AFT regression requires strictly positive times".to_string(),
        }),
    );
    assert!(matches!(err, BayesError::Config { ref slot, .. } if slot == "time"));
}

#[test]
fn a_non_binary_event_indicator_is_a_request_error() {
    let req = request(
        AftDistribution::Weibull,
        &[1.0, 2.0, 3.0, 4.0, 5.0, 6.0],
        &[vec![1.0, 2.0, 3.0, 4.0, 5.0, 6.0]],
        &[1.0, 0.0, 2.0, 1.0, 0.0, 1.0],
    );
    let err = error(
        &req,
        Err(StatsError::InvalidValue {
            field: "event".to_string(),
            message: "the event indicator must be 0 or 1".to_string(),
        }),
    );
    assert!(matches!(err, BayesError::Config { ref slot, .. } if slot == "event"));
}

#[test]
fn a_rank_deficient_design_arrives_as_degenerate_rather_than_as_a_number() {
    let req = weibull(60);
    for broken in [f64::NAN, f64::INFINITY, 0.0, -1.0] {
        let mut r = reply(AftDistribution::Weibull, 60);
        if let Some(i) = r.inference.as_mut() {
            i.roots[1] = double(broken);
            i.apart = vec![true; 3];
        }
        let verdict = refusal(&req, Ok(r));
        assert_eq!(verdict.status, FitStatus::Degenerate);
        assert!(render(&verdict.reasons[0]).contains("no usable covariance"));
    }
    let mut r = reply(AftDistribution::Weibull, 60);
    if let Some(i) = r.inference.as_mut() {
        i.vcov = Some(matrix(&[0.01, 0.04, 0.09], f64::NAN));
    }
    assert_eq!(refusal(&req, Ok(r)).status, FitStatus::Degenerate);
    assert_eq!(
        refusal(&req, Err(StatsError::SingularMatrix)).status,
        FitStatus::Degenerate
    );
}

#[test]
fn the_refusal_table_covers_the_variants_it_claims_to_and_admits_the_ones_it_does_not() {
    let cases: Vec<(StatsError, Option<FitStatus>)> = vec![
        (
            StatsError::InvalidValue {
                field: "event".to_string(),
                message: "every observation is censored, so the model is not identified"
                    .to_string(),
            },
            Some(FitStatus::Degenerate),
        ),
        (
            StatsError::InsufficientData { rows: 3, cols: 5 },
            Some(FitStatus::InsufficientData),
        ),
        (StatsError::NoValidData, Some(FitStatus::InsufficientData)),
        (StatsError::EmptyInput, Some(FitStatus::InsufficientData)),
        (
            StatsError::ConvergenceFailure { iterations: 100, tolerance: double(1e-9) },
            Some(FitStatus::Failed),
        ),
        (StatsError::SingularMatrix, Some(FitStatus::Degenerate)),
        (StatsError::CholeskyFailed, Some(FitStatus::Degenerate)),
        (StatsError::QrFailed, Some(FitStatus::Degenerate)),
        (
            StatsError::InvalidValue {
                field: "time".to_string(),
                message: "AFT regression requires strictly positive times".to_string(),
            },
            None,
        ),
        (StatsError::DimensionMismatch { y_len: 3, x_rows: 4 }, None),
    ];
    for (refusal, expected) in cases {
        let label = format!("{refusal:?}");
        match (map_refusal(refusal), expected) {
            (Ok(r), Some(status)) => assert_eq!(r.status, status, "{label}"),
            (Err(_), None) => {}
            (got, _) => panic!("{label} mapped to {:?}, expected {expected:?}", got.is_ok()),
        }
    }

    match map_refusal(StatsError::Other("allocation failure".to_string())) {
        Err(BayesError::Internal(m)) => assert!(render(&m).ends_with("map: allocation failure")),
        _ => panic!("an unmapped refusal was graded"),
    }
}

#[test]
fn a_failed_mode_search_is_failed_and_not_merely_degenerate() {
    let r = match map_refusal(StatsError::ConvergenceFailure {
        iterations: 100,
        tolerance: double(1e-9),
    }) {
        Ok(r) => r,
        Err(e) => panic!("{}", said(&e)),
    };
    assert_eq!(r.status, FitStatus::Failed);
    assert!(!r.status.is_actionable());
    assert!(FitStatus::Failed.rank() > FitStatus::InsufficientData.rank());
    assert_eq!(
        render(&r.reasons[0]),
        "the censored AFT mode search did not converge after 100 iterations (tolerance \
         0.000000001); there is no mode to expand a posterior around"
    );
}

#[test]
fn a_fit_that_read_other_rows_is_an_internal_error() {
    let err = error(&weibull(60), Ok(reply(AftDistribution::Weibull, 59)));
    assert_eq!(
        said(&err),
        "internal error: the bridged fit read 59 of the 60 rows it was given; the data \
         fingerprint would not describe the rows the fit actually used"
    );
}

#[test]
fn a_mode_that_is_no_point_is_refused_with_its_numbers() {
    let mut r = reply(AftDistribution::Weibull, 60);
    r.coefficients = doubles(&[f64::INFINITY]);
    let verdict = refusal(&weibull(60), Ok(r));
    assert_eq!(verdict.status, FitStatus::Degenerate);
    let said = render(&verdict.reasons[0]);
    assert!(said.starts_with("the censored AFT mode is not a usable point ([1.5, inf, "), "{said}");

    let mut r = reply(AftDistribution::Weibull, 60);
    r.intercept = None;
    assert_eq!(refusal(&weibull(60), Ok(r)).status, FitStatus::Degenerate);
}

#[test]
fn a_fit_without_its_curvature_is_refused() {
    let mut r = reply(AftDistribution::Weibull, 60);
    r.inference = None;
    assert!(render(&refusal(&weibull(60), Ok(r)).reasons[0]).contains("no inference"));

    let mut r = reply(AftDistribution::Weibull, 60);
    if let Some(i) = r.inference.as_mut() {
        i.vcov = None;
    }
    assert!(render(&refusal(&weibull(60), Ok(r)).reasons[0]).contains("without the curvature"));

    let mut r = reply(AftDistribution::Weibull, 60);
    if let Some(i) = r.inference.as_mut() {
        i.information = Some(matrix(&[100.0, f64::INFINITY, 11.0], 0.5));
    }
    assert_eq!(
        render(&refusal(&weibull(60), Ok(r)).reasons[0]),
        "the curvature at the censored AFT mode is not finite"
    );
}

#[test]
fn a_covariance_that_contradicts_its_standard_errors_is_an_internal_error() {
    let mut r = reply(AftDistribution::Weibull, 60);
    if let Some(i) = r.inference.as_mut() {
        i.apart[2] = true;
    }
    let err = error(&weibull(60), Ok(r));
    assert_eq!(
        said(&err),
        "internal error: anofox-stats-core's covariance disagrees with its own standard errors \
         at coordinate 2: 0.3 against the reported 0.3. The pinned revision no longer means the \
         same thing by this likelihood"
    );

    let mut r = reply(AftDistribution::Weibull, 60);
    if let Some(i) = r.inference.as_mut() {
        i.intercept_std_error = None;
    }
    let err = error(&weibull(60), Ok(r));
    assert!(said(&err).contains("at coordinate 0: 0.1 against the reported NaN"), "{}", said(&err));
}

#[test]
fn the_reported_standard_errors_come_in_design_order() {
    let r = reply(AftDistribution::Weibull, 60);
    let inference = r.inference.unwrap();
    let all: Vec<f64> = statistics_standard_errors(&inference, true, true)
        .iter()
        .map(|v| f64::from_bits(v.bits))
        .collect();
    assert_eq!(all, vec![0.1, 0.2, 0.3]);
    assert_eq!(statistics_standard_errors(&inference, false, false), doubles(&[0.2]));
}

#[test]
fn a_bridged_posterior_keeps_the_whole_curvature() {
    let g = fitted(&weibull(60), reply(AftDistribution::Weibull, 60));
    assert_eq!(g.mode, doubles(&[1.5, 0.35, 0.6f64.ln()]));
    assert_eq!(g.information.rows[0][1], double(0.5));
    assert_eq!(g.covariance.rows[1][0], double(-0.001));
    assert_eq!(g.std_errors, doubles(&[0.1, 0.2, 0.3]));
    assert_eq!((g.n_obs, g.n_events, g.n_censored), (60, 60, 0));
    assert_eq!(g.scale, double(0.6));
}

#[test]
fn a_distribution_that_fixes_its_scale_has_it_at_one() {
    let mut req = weibull(60);
    req.dist = AftDistribution::Exponential;
    assert_eq!(fitted(&req, reply(AftDistribution::Exponential, 60)).scale, double(1.0));
    let mut fit = reply(AftDistribution::Exponential, 60);
    fit.scale = double(0.25);
    let g = fitted(&req, fit);
    assert!(!g.fit_scale);
    assert_eq!(g.scale, double(1.0));
    assert_eq!(g.mode, doubles(&[1.5, 0.35]));
}

#[test]
fn the_agreement_tolerance_is_the_number_it_stands_for() {
    assert_eq!(f64::from_bits(SE_AGREEMENT_TOLERANCE), 1e-8);
}

#[test]
fn a_fit_is_asked_for_inference_and_for_the_laplace_covariance() {
    let mut req = weibull(60);
    req.priors = vec![
        PriorSpec::Flat,
        PriorSpec::Normal { mean: double(0.0), sd: double(0.5) },
    ];
    let options = req.options();
    assert_eq!(options.dist, AftDistribution::Weibull);
    assert!(options.fit_intercept);
    assert!(options.compute_inference);
    assert_eq!(options.priors, req.priors);
    assert_eq!(options.vcov, VcovType::Laplace);

    req.dist = AftDistribution::Exponential;
    req.intercept = false;
    req.priors = Vec::new();
    let options = req.options();
    assert_eq!(options.dist, AftDistribution::Exponential);
    assert!(!options.fit_intercept && options.compute_inference);
    assert!(options.priors.is_empty());
    assert_eq!(options.vcov, VcovType::Laplace);
}

#[test]
fn a_larger_matrix_is_cut_down_to_its_leading_part() {
    let m = Matrix { rows: vec![doubles(&[1.0, 2.0, 3.0]), doubles(&[4.0, 5.0]), doubles(&[6.0])] };
    let part = m.leading(2).unwrap();
    assert_eq!(part.rows, vec![doubles(&[1.0, 2.0]), doubles(&[4.0, 5.0])]);
    assert!(m.leading(3).is_none());
    assert!(m.leading(4).is_none());
    assert!(m.leading(0).unwrap().rows.is_empty());
}
