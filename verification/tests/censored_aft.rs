use anofox_bayes_core::bridge::{
    AftDistribution, AftFit, AftInference, Matrix, PriorSpec, StatsError, VcovType,
};
use anofox_bayes_core::catalog::f2_censored_aft::{
    AftGroup, CensoredAft, CensoredAftPlan, CompiledCensoredAft, DISTRIBUTIONS,
};
use anofox_bayes_core::formula::Formula;
use anofox_bayes_core::types::FitStatus;
use anofox_bayes_core::config::{Config, Entry, Value};
use anofox_bayes_core::data::{DataView, KeyColumn, NumericColumn};
use anofox_bayes_core::double::Double;
use anofox_bayes_core::errors::{BayesError, Message, Part};
use anofox_bayes_core::reading::Reading;

fn double(v: f64) -> Double {
    Double { bits: v.to_bits() }
}

fn number(name: &str, v: f64) -> Entry {
    Entry { name: name.to_string(), value: Value::Number(double(v)) }
}

fn text(name: &str, v: &str) -> Entry {
    Entry { name: name.to_string(), value: Value::Text(v.to_string()) }
}

#[allow(dead_code)]
fn list(name: &str, v: &[&str]) -> Entry {
    Entry {
        name: name.to_string(),
        value: Value::List(v.iter().map(|s| s.to_string()).collect()),
    }
}

#[allow(dead_code)]
fn table(name: &str, entries: Vec<Entry>) -> Entry {
    Entry { name: name.to_string(), value: Value::Table(entries) }
}

fn config(entries: Vec<Entry>) -> Config {
    Config { entries }
}

fn frame(n_rows: usize) -> DataView {
    DataView::new(n_rows)
}

fn numeric(data: &mut DataView, name: &str, values: Vec<f64>) {
    let valid = vec![true; values.len()];
    let column = NumericColumn {
        name: name.to_string(),
        values: values.into_iter().map(double).collect(),
        valid,
    };
    assert!(data.add_numeric(column).is_ok());
}

#[allow(dead_code)]
fn key<S: AsRef<str>>(data: &mut DataView, name: &str, values: &[S]) {
    let column = KeyColumn {
        name: name.to_string(),
        values: values.iter().map(|s| s.as_ref().to_string()).collect(),
        valid: vec![true; values.len()],
    };
    assert!(data.add_key(column).is_ok());
}

fn render(message: &Message) -> String {
    let mut out = String::new();
    for part in &message.parts {
        match part {
            Part::Text(s) => out.push_str(s),
            Part::Number(v) => out.push_str(&format!("{}", f64::from_bits(v.bits))),
            Part::Numbers(v) => {
                let all: Vec<f64> = v.iter().map(|x| f64::from_bits(x.bits)).collect();
                out.push_str(&format!("{:?}", all));
            }
        }
    }
    out
}

fn said(e: &BayesError) -> String {
    render(&e.describe())
}

#[allow(dead_code)]
fn names_slot(e: &BayesError, wanted: &str) -> bool {
    matches!(e, BayesError::Config { slot, .. } if slot == wanted)
}
fn value_of(formula: &Formula, theta: &[f64]) -> f64 {
    match *formula {
        Formula::Coordinate { at } => theta[at],
        Formula::Exp { at } => theta[at].exp(),
        Formula::MinusExp { at } => -theta[at].exp(),
        Formula::Scaled { log_scale, at } => theta[log_scale].exp() * theta[at],
        Formula::ExpSum { base, log_scale, at } => {
            (theta[base] + theta[log_scale].exp() * theta[at]).exp()
        }
        Formula::MinusExpSum { base, log_scale, at } => {
            -(theta[base] + theta[log_scale].exp() * theta[at]).exp()
        }
        Formula::Fixed { value } => f64::from_bits(value.bits),
        Formula::Absent => f64::NAN,
    }
}

fn plan(data: &DataView, entries: Vec<Entry>) -> CensoredAftPlan {
    match CensoredAft.compile(&config(entries), data) {
        Ok(p) => p,
        Err(e) => panic!("{}", said(&e)),
    }
}

fn read(data: &DataView, entries: Vec<Entry>) -> Reading {
    match CensoredAft.reading(&config(entries), data) {
        Ok(r) => r,
        Err(e) => panic!("{}", said(&e)),
    }
}

fn refused(data: &DataView, entries: Vec<Entry>) -> BayesError {
    match CensoredAft.compile(&config(entries), data) {
        Err(e) => e,
        Ok(_) => panic!("expected a refusal"),
    }
}

fn matrix(n: usize, diagonal: f64, off: f64) -> Matrix {
    Matrix {
        rows: (0..n)
            .map(|i| (0..n).map(|j| double(if i == j { diagonal } else { off })).collect())
            .collect(),
    }
}

/// What a fit of a group replies: a posterior, unless no event was observed.
fn reply(group: &AftGroup) -> Result<AftFit, StatsError> {
    let req = &group.request;
    if req.event.iter().all(|e| f64::from_bits(e.bits) == 0.0) {
        return Err(StatsError::InvalidValue {
            field: "event".to_string(),
            message: "every observation is censored, so the model is not identified".to_string(),
        });
    }
    let estimated = req.dist != AftDistribution::Exponential;
    let n = req.x.len() + usize::from(req.intercept) + usize::from(estimated);
    Ok(AftFit {
        intercept: if req.intercept { Some(double(1.0)) } else { None },
        coefficients: req.x.iter().map(|_| double(0.25)).collect(),
        scale: double(if estimated { 0.4 } else { 1.0 }),
        log_scale: double(if estimated { 0.4f64.ln() } else { 0.0 }),
        n_observations: req.time.len(),
        n_events: req.event.iter().filter(|e| f64::from_bits(e.bits) == 1.0).count(),
        n_censored: req.event.iter().filter(|e| f64::from_bits(e.bits) == 0.0).count(),
        inference: Some(AftInference {
            information: Some(matrix(n, 25.0, 3.0)),
            vcov: Some(matrix(n, 0.04, -0.01)),
            roots: vec![double(0.2); n],
            intercept_std_error: Some(double(0.2)),
            std_errors: vec![double(0.2); req.x.len()],
            log_scale_std_error: Some(double(0.2)),
            apart: vec![false; n],
        }),
    })
}

fn model(data: &DataView, entries: Vec<Entry>) -> CompiledCensoredAft {
    let p = plan(data, entries);
    let replies: Vec<Result<AftFit, StatsError>> = p.groups.iter().map(reply).collect();
    match p.assemble(replies) {
        Ok(m) => m,
        Err(e) => panic!("{}", said(&e)),
    }
}

fn shipments(n: usize) -> DataView {
    let mut data = frame(n);
    numeric(&mut data, "days", (0..n).map(|i| 1.0 + (i % 17) as f64).collect());
    numeric(&mut data, "distance", (0..n).map(|i| 10.0 + (i % 7) as f64).collect());
    numeric(
        &mut data,
        "delivered",
        (0..n).map(|i| if i % 5 == 0 { 0.0 } else { 1.0 }).collect(),
    );
    data
}

fn lanes() -> DataView {
    let mut data = shipments(300);
    let delivered: Vec<Double> = (0..300)
        .map(|i| double(if i >= 240 || i % 5 == 0 { 0.0 } else { 1.0 }))
        .collect();
    data.numeric[2].values = delivered;
    let keys: Vec<&str> = (0..300)
        .map(|i| {
            if i < 120 {
                "HAM-ROT"
            } else if i < 240 {
                "BRE-ANT"
            } else {
                "OPEN-ONLY"
            }
        })
        .collect();
    key(&mut data, "lane", &keys);
    data
}

fn basic() -> Vec<Entry> {
    vec![text("time", "days"), text("event", "delivered"), text("x", "distance")]
}

fn with(more: Entry) -> Vec<Entry> {
    let mut entries = basic();
    entries.push(more);
    entries
}

#[test]
fn the_family_reports_one_parameter_per_coefficient_plus_the_scale() {
    let m = model(&shipments(200), basic());
    let names: Vec<&str> = m.params.iter().map(|p| p.name.as_str()).collect();
    assert_eq!(names, vec!["intercept", "beta[distance]", "sigma"]);
    assert_eq!(m.n_obs, 200);
    assert_eq!(m.n_groups, 1);
    assert_eq!(m.readiness.status, FitStatus::Converged);
    assert_eq!(m.n_groups_unready, 0);
}

#[test]
fn the_scale_stays_positive_because_it_is_sampled_on_the_log_scale() {
    let m = model(&shipments(200), basic());
    let formulas = m.metas[0].constrain();
    for d in 0..2000 {
        let theta = [1.0, 0.2, (d % 101) as f64 / 10.0 - 5.0];
        assert!(value_of(&formulas[2], &theta) > 0.0);
        assert_eq!(value_of(&formulas[1], &theta), 0.2);
    }
}

#[test]
fn the_exponential_distribution_reports_a_scale_it_did_not_estimate() {
    let m = model(&shipments(200), with(text("dist", "exponential")));
    assert_eq!(m.blocks[0].mode.len(), 2, "no log sigma coordinate");
    assert_eq!(m.blocks[0].params.len(), 3, "sigma is still reported");
    let formulas = m.metas[0].constrain();
    for d in 0..500 {
        let theta = [d as f64 / 100.0, -0.3];
        assert!(value_of(&formulas[2], &theta) == 1.0);
    }
}

#[test]
fn a_lane_with_no_delivered_shipment_is_degenerate_and_named() {
    let m = model(&lanes(), with(text("group", "lane")));
    assert_eq!(m.n_groups, 3);
    assert_eq!(m.n_groups_unready, 1);
    assert_eq!(m.readiness.status, FitStatus::Degenerate);
    let reasons: Vec<String> = m.readiness.reasons.iter().map(render).collect();
    assert!(
        reasons.iter().any(|s| s.contains("OPEN-ONLY")),
        "the refusing lane must be named: {reasons:?}"
    );
    assert!(reasons[0].starts_with("group 'OPEN-ONLY': every observation is right-censored"));
}

#[test]
fn a_refused_lane_draws_null_without_poisoning_the_lanes_that_fitted() {
    let m = model(&lanes(), with(text("group", "lane")));
    let p = m.params.len();
    assert_eq!(p, 9, "3 lanes x (intercept, beta, sigma)");
    let slot = |group: &str, name: &str| {
        m.params.iter().position(|q| q.group_id == group && q.name == name).unwrap()
    };
    for d in 0..500 {
        let mut row = vec![f64::NAN; p];
        for (block, meta) in m.blocks.iter().zip(&m.metas) {
            let theta: Vec<f64> = block
                .mode
                .iter()
                .enumerate()
                .map(|(j, v)| f64::from_bits(v.bits) + ((d * 3 + j) % 7) as f64 * 0.01)
                .collect();
            for (at, f) in block.params.iter().zip(meta.constrain().iter()) {
                row[*at] = value_of(f, &theta);
            }
        }
        for lane in ["HAM-ROT", "BRE-ANT"] {
            assert!(row[slot(lane, "intercept")].is_finite(), "{lane}");
            assert!(row[slot(lane, "sigma")] > 0.0, "{lane}");
        }
        assert!(row[slot("OPEN-ONLY", "intercept")].is_nan());
        assert!(row[slot("OPEN-ONLY", "beta[distance]")].is_nan());
        assert!(row[slot("OPEN-ONLY", "sigma")].is_nan());
    }
}

#[test]
fn separate_lanes_are_fitted_independently() {
    let m = model(&lanes(), with(text("group", "lane")));
    assert_eq!(m.blocks.len(), 2, "the refused lane contributes no block");
    let a = &m.blocks[0].params;
    let b = &m.blocks[1].params;
    assert!(a.iter().all(|i| !b.contains(i)));
    assert_eq!(a.len(), 3);
}

#[test]
fn a_misspelled_slot_names_the_typo() {
    let err = said(&refused(
        &shipments(50),
        vec![text("time", "days"), text("event", "delivered"), text("dst", "weibull")],
    ));
    assert!(err.contains("dst"), "{err}");
    assert!(err.contains("did you mean 'dist'"), "{err}");
}

#[test]
fn an_unknown_distribution_is_an_error_rather_than_a_fallback() {
    let err = said(&refused(
        &shipments(50),
        vec![text("time", "days"), text("event", "delivered"), text("dist", "gompertz")],
    ));
    assert!(err.contains("expected one of weibull"), "{err}");
}

#[test]
fn every_admitted_distribution_compiles_and_samples() {
    let data = shipments(200);
    for dist in DISTRIBUTIONS {
        let m = model(&data, with(text("dist", dist)));
        assert_eq!(m.readiness.status, FitStatus::Converged, "{dist}");
        let formulas = m.metas[0].constrain();
        for d in 0..200 {
            let theta: Vec<f64> = m.blocks[0]
                .mode
                .iter()
                .map(|v| f64::from_bits(v.bits) + (d % 9) as f64 * 0.05)
                .collect();
            assert!(formulas.iter().all(|f| value_of(f, &theta).is_finite()), "{dist}");
        }
    }
}

#[test]
fn a_model_with_nothing_to_estimate_is_rejected() {
    let err = CensoredAft.compile(
        &config(vec![text("time", "days"), text("event", "delivered"), number("intercept", 0.0)]),
        &shipments(50),
    );
    assert!(err.is_err());
}

#[test]
fn a_null_anywhere_in_a_row_removes_the_whole_row_before_the_fingerprint() {
    let clean = shipments(60);
    let mut holed = shipments(60);
    holed.numeric[1].valid[7] = false;
    let mc = plan(&clean, basic());
    let mh = plan(&holed, basic());
    assert_eq!(mc.n_obs, 60);
    assert_eq!(mh.n_obs, 59);
    assert_ne!(mc.groups[0].request.time, mh.groups[0].request.time);
    assert_eq!(mh.groups[0].request.time.len(), 59);
    assert_eq!(mh.groups[0].request.time[7], mc.groups[0].request.time[8]);
    let (rc, rh) = (read(&clean, basic()), read(&holed, basic()));
    assert_eq!(rc.numeric, vec!["days", "delivered", "distance"]);
    assert_eq!(rc.rows.len(), 60);
    assert_eq!(rh.rows.len(), 59);
    assert!(!rh.rows.contains(&7));
    assert_ne!(rc.numbers, rh.numbers);
    assert_eq!(rh.numbers[0], mh.groups[0].request.time);
}

#[test]
fn relations_that_are_read_alike_are_fitted_alike() {
    let mut holed = shipments(60);
    holed.numeric[1].valid[7] = false;
    let mut dense = frame(59);
    for column in &holed.numeric {
        let kept: Vec<f64> = (0..60)
            .filter(|i| *i != 7)
            .map(|i| f64::from_bits(column.values[i].bits))
            .collect();
        numeric(&mut dense, &column.name, kept);
    }
    let (a, b) = (read(&holed, basic()), read(&dense, basic()));
    assert_ne!(a.rows, b.rows);
    assert_eq!((a.numeric, a.numbers, a.labels), (b.numeric, b.numbers, b.labels));
    let (m, n) = (plan(&holed, basic()), plan(&dense, basic()));
    assert_eq!(m.n_obs, n.n_obs);
    assert_eq!(m.groups[0].request.time, n.groups[0].request.time);
    assert_eq!(m.groups[0].request.event, n.groups[0].request.event);
    assert_eq!(m.groups[0].request.x, n.groups[0].request.x);
}

#[test]
fn every_lane_is_fitted_under_the_options_of_the_request() {
    let entries = vec![
        text("time", "days"),
        text("event", "delivered"),
        text("x", "distance"),
        text("group", "lane"),
        text("dist", "lognormal"),
        table("prior", vec![number("beta_scale", 0.5)]),
    ];
    let p = plan(&lanes(), entries);
    assert_eq!(p.groups.len(), 3);
    for group in &p.groups {
        let options = group.request.options();
        assert_eq!(options.dist, AftDistribution::LogNormal);
        assert!(options.fit_intercept && options.compute_inference);
        assert_eq!(options.vcov, VcovType::Laplace);
        assert_eq!(
            options.priors,
            vec![PriorSpec::Flat, PriorSpec::Normal { mean: double(0.0), sd: double(0.5) }]
        );
    }
}

#[test]
fn a_prior_is_put_on_the_slopes_and_never_on_the_level() {
    let p = plan(&shipments(60), with(table("prior", vec![number("beta_scale", 0.02)])));
    assert_eq!(
        p.groups[0].request.priors,
        vec![PriorSpec::Flat, PriorSpec::Normal { mean: double(0.0), sd: double(0.02) }]
    );
    assert!(plan(&shipments(60), basic()).groups[0].request.priors.is_empty());
    let err = refused(
        &shipments(60),
        with(table("prior", vec![number("beta_scale", 0.0)])),
    );
    assert_eq!(said(&err), "prior.beta_scale: must be > 0");
}

#[test]
fn the_duration_and_the_event_may_not_be_predictors() {
    for name in ["days", "delivered"] {
        let err = refused(
            &shipments(60),
            vec![text("time", "days"), text("event", "delivered"), text("x", name)],
        );
        assert!(names_slot(&err, "x"), "{}", said(&err));
    }
}

#[test]
fn a_lane_whose_search_failed_fails_the_whole_model() {
    let p = plan(&lanes(), with(text("group", "lane")));
    let mut replies: Vec<Result<AftFit, StatsError>> = p.groups.iter().map(reply).collect();
    replies[0] =
        Err(StatsError::ConvergenceFailure { iterations: 7, tolerance: double(1e-6) });
    let m = match p.assemble(replies) {
        Ok(m) => m,
        Err(e) => panic!("{}", said(&e)),
    };
    assert_eq!(m.readiness.status, FitStatus::Failed);
    assert_eq!(m.n_groups_unready, 2);
    assert_eq!(m.blocks.len(), 1);
    assert_eq!(m.blocks[0].params, vec![3, 4, 5]);
    assert_eq!(m.readiness.reasons.len(), 2);
}

#[test]
fn an_error_in_one_lane_is_the_error_of_the_model() {
    let p = plan(&lanes(), with(text("group", "lane")));
    let mut replies: Vec<Result<AftFit, StatsError>> = p.groups.iter().map(reply).collect();
    replies[1] = Err(StatsError::DimensionMismatch { y_len: 3, x_rows: 4 });
    match p.assemble(replies) {
        Err(e) => assert_eq!(
            said(&e),
            "dimension mismatch: time has 3 entries, a predictor has 4"
        ),
        Ok(_) => panic!("a malformed reply passed"),
    }
}

#[test]
fn a_lane_is_fitted_alone_as_it_is_in_company() {
    let data = lanes();
    let company = plan(&data, with(text("group", "lane")));
    for g in 0..company.groups.len() {
        let lane = company.groups[g].key.clone();
        let rows: Vec<usize> =
            (0..data.n_rows).filter(|i| data.keys[0].values[*i] == lane).collect();
        let mut alone = frame(rows.len());
        for column in &data.numeric {
            let values: Vec<f64> =
                rows.iter().map(|i| f64::from_bits(column.values[*i].bits)).collect();
            numeric(&mut alone, &column.name, values);
        }
        key(&mut alone, "lane", &vec![lane.clone(); rows.len()]);
        let single = plan(&alone, with(text("group", "lane")));
        assert_eq!(single.groups.len(), 1);
        assert_eq!(single.groups[0].key, lane);
        assert_eq!(single.groups[0].request.time, company.groups[g].request.time);
        assert_eq!(single.groups[0].request.event, company.groups[g].request.event);
        assert_eq!(single.groups[0].request.x, company.groups[g].request.x);
    }
    let together = model(&data, with(text("group", "lane")));
    assert!(!together.blocks.is_empty());
}
