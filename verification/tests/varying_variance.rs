use anofox_bayes_core::catalog::f3_pooled_gaussian::PooledGaussian;
use anofox_bayes_core::catalog::f8_varying_variance::{
    response, CompiledVaryingVariance, VaryingVarianceGaussian,
};
use anofox_bayes_core::catalog::{lookup, Family};
use anofox_bayes_core::errors::BayesResult;
use anofox_bayes_core::formula::Formula;
use anofox_bayes_core::types::{EngineKind, FamilyCode, FitStatus};
use anofox_bayes_core::config::{Config, Entry, Value};
use anofox_bayes_core::data::{DataView, KeyColumn, NumericColumn};
use anofox_bayes_core::double::Double;
use anofox_bayes_core::errors::{BayesError, Message, Part};

fn double(v: f64) -> Double {
    Double { bits: v.to_bits() }
}

fn number(name: &str, v: f64) -> Entry {
    Entry { name: name.to_string(), value: Value::Number(double(v)) }
}

fn text(name: &str, v: &str) -> Entry {
    Entry { name: name.to_string(), value: Value::Text(v.to_string()) }
}

#[allow(dead_code)]
fn list(name: &str, v: &[&str]) -> Entry {
    Entry {
        name: name.to_string(),
        value: Value::List(v.iter().map(|s| s.to_string()).collect()),
    }
}

#[allow(dead_code)]
fn table(name: &str, entries: Vec<Entry>) -> Entry {
    Entry { name: name.to_string(), value: Value::Table(entries) }
}

fn config(entries: Vec<Entry>) -> Config {
    Config { entries }
}

fn frame(n_rows: usize) -> DataView {
    DataView::new(n_rows)
}

fn numeric(data: &mut DataView, name: &str, values: Vec<f64>) {
    let valid = vec![true; values.len()];
    let column = NumericColumn {
        name: name.to_string(),
        values: values.into_iter().map(double).collect(),
        valid,
    };
    assert!(data.add_numeric(column).is_ok());
}

#[allow(dead_code)]
fn key<S: AsRef<str>>(data: &mut DataView, name: &str, values: &[S]) {
    let column = KeyColumn {
        name: name.to_string(),
        values: values.iter().map(|s| s.as_ref().to_string()).collect(),
        valid: vec![true; values.len()],
    };
    assert!(data.add_key(column).is_ok());
}

fn render(message: &Message) -> String {
    let mut out = String::new();
    for part in &message.parts {
        match part {
            Part::Text(s) => out.push_str(s),
            Part::Number(v) => out.push_str(&format!("{}", f64::from_bits(v.bits))),
            Part::Numbers(v) => {
                let all: Vec<f64> = v.iter().map(|x| f64::from_bits(x.bits)).collect();
                out.push_str(&format!("{:?}", all));
            }
        }
    }
    out
}

fn said(e: &BayesError) -> String {
    render(&e.describe())
}

#[allow(dead_code)]
fn names_slot(e: &BayesError, wanted: &str) -> bool {
    matches!(e, BayesError::Config { slot, .. } if slot == wanted)
}
fn value_of(formula: &Formula, theta: &[f64]) -> f64 {
    match *formula {
        Formula::Coordinate { at } => theta[at],
        Formula::Exp { at } => theta[at].exp(),
        Formula::MinusExp { at } => -theta[at].exp(),
        Formula::Scaled { log_scale, at } => theta[log_scale].exp() * theta[at],
        Formula::ExpSum { base, log_scale, at } => {
            (theta[base] + theta[log_scale].exp() * theta[at]).exp()
        }
        Formula::MinusExpSum { base, log_scale, at } => {
            -(theta[base] + theta[log_scale].exp() * theta[at]).exp()
        }
        Formula::Fixed { value } => f64::from_bits(value.bits),
        Formula::Absent => f64::NAN,
    }
}

fn panel(levels: &[f64], sigmas: &[f64], n_per_group: usize, slope: f64) -> DataView {
    let (mut y, mut x, mut g) = (Vec::new(), Vec::new(), Vec::new());
    for (i, (level, sigma)) in levels.iter().zip(sigmas).enumerate() {
        for j in 0..n_per_group {
            let xv = ((j % 7) as f64 - 3.0) / 3.0;
            y.push(level + slope * xv + sigma * (((j * 5 + i) % 9) as f64 - 4.0) / 3.0);
            x.push(xv);
            g.push(format!("G{i:02}"));
        }
    }
    let mut data = frame(y.len());
    numeric(&mut data, "y", y);
    numeric(&mut data, "x", x);
    key(&mut data, "segment", &g);
    data
}

fn compile(data: &DataView, entries: Vec<Entry>) -> BayesResult<CompiledVaryingVariance> {
    let cfg = config(entries);
    let y: Vec<f64> = response(&cfg, data)?.iter().map(|v| f64::from_bits(v.bits)).collect();
    let n = y.len() as f64;
    let mean = y.iter().sum::<f64>() / n;
    let sd = (y.iter().map(|v| (v - mean).powi(2)).sum::<f64>() / (n - 1.0)).sqrt();
    VaryingVarianceGaussian.compile(&cfg, data, double(sd))
}

fn compiled(data: &DataView, entries: Vec<Entry>) -> CompiledVaryingVariance {
    match compile(data, entries) {
        Ok(m) => m,
        Err(e) => panic!("{}", said(&e)),
    }
}

fn refused(data: &DataView, entries: Vec<Entry>) -> BayesError {
    match compile(data, entries) {
        Err(e) => e,
        Ok(_) => panic!("expected a refusal"),
    }
}

fn basic() -> Vec<Entry> {
    vec![text("y", "y"), text("x", "x"), text("group", "segment")]
}

fn with(more: Entry) -> Vec<Entry> {
    let mut entries = basic();
    entries.push(more);
    entries
}

#[test]
fn f8_varying_variance_the_family_is_in_the_catalog_under_its_own_code() {
    let family = lookup("varying_variance_gaussian").unwrap();
    assert_eq!(family.code(), FamilyCode::VaryingVarianceGaussian);
    assert_eq!(family.default_engine(), EngineKind::Nuts);
}

#[test]
fn the_parameters_are_the_coefficients_three_hyperparameters_and_two_per_group() {
    let model = compiled(&panel(&[10.0, 12.0, 11.0], &[1.0, 1.0, 1.0], 20, 0.5), basic());
    let names: Vec<String> =
        model.params.iter().map(|p| format!("{}/{}", p.group_id, p.name)).collect();
    assert_eq!(
        names,
        vec![
            "__global__/intercept",
            "__global__/beta[x]",
            "__global__/pool_scale",
            "__global__/sigma_pop",
            "__global__/sigma_spread",
            "G00/group_effect",
            "G01/group_effect",
            "G02/group_effect",
            "G00/sigma",
            "G01/sigma",
            "G02/sigma",
        ]
    );
    assert_eq!(model.params.len(), 11);
    assert_eq!(model.dim(), 11);
}

#[test]
fn f8_varying_variance_the_group_column_is_required_rather_than_optional() {
    let data = panel(&[1.0, 2.0, 3.0], &[1.0, 1.0, 1.0], 10, 0.0);
    let err = refused(&data, vec![text("y", "y"), text("x", "x")]);
    assert!(names_slot(&err, "group"), "{}", said(&err));
}

#[test]
fn two_groups_cannot_identify_a_learned_pooling_scale() {
    let model = compiled(&panel(&[1.0, 2.0], &[1.0, 1.0], 30, 0.0), basic());
    let r = model.readiness();
    assert_eq!(r.status, FitStatus::InsufficientData);
    assert!(render(&r.reasons[0]).contains("pooled_gaussian"));
}

#[test]
fn the_family_asks_the_sampler_for_a_finer_step_than_a_glm_shaped_posterior_needs() {
    let data = panel(&[1.0, 2.0, 3.0], &[1.0, 0.5, 2.0], 10, 0.0);
    assert!(compile(&data, basic()).is_ok());
    let accept = |f: Family| f64::from_bits(f.target_accept().bits);
    assert_eq!(accept(Family::VaryingVarianceGaussian), 0.95);

    let mut data = frame(20);
    numeric(&mut data, "y", (0..20).map(|i| (i % 5) as f64).collect());
    numeric(&mut data, "x", (0..20).map(|i| i as f64).collect());
    assert!(PooledGaussian.compile(&config(vec![text("y", "y"), text("x", "x")]), &data).is_ok());
    assert_eq!(accept(Family::PooledGaussian), 0.8);
}

#[test]
fn f8_varying_variance_a_prior_predictive_check_is_refused_because_there_is_no_closed_form_prior_draw()
{
    let data = panel(&[1.0, 2.0, 3.0], &[1.0, 0.5, 2.0], 10, 0.0);
    let err = refused(&data, with(text("sample_from", "prior")));
    assert!(names_slot(&err, "sample_from"), "{}", said(&err));
}

#[test]
fn a_pooling_scale_written_where_pooled_gaussian_puts_it_is_rejected() {
    let data = panel(&[1.0, 2.0, 3.0], &[1.0, 0.5, 2.0], 10, 0.0);
    let err = refused(&data, with(number("pool_scale", 2.0)));
    assert!(names_slot(&err, "pool_scale"), "{}", said(&err));
    assert!(said(&err).contains("unknown option"), "{}", said(&err));
}

#[test]
fn a_panel_of_singleton_groups_cannot_identify_the_spread_of_variances() {
    let data = panel(&[1.0, 2.0, 3.0, 4.0, 5.0], &[1.0; 5], 1, 0.0);
    assert!(matches!(
        refused(&data, vec![text("y", "y"), text("group", "segment")]),
        BayesError::InsufficientData { .. }
    ));
}

#[test]
fn a_constant_response_is_refused_through_the_status_row_rather_than_an_error() {
    let mut data = frame(12);
    numeric(&mut data, "y", vec![30.0; 12]);
    numeric(&mut data, "x", (0..12).map(|i| (i % 4) as f64).collect());
    key(
        &mut data,
        "segment",
        &["A", "A", "A", "A", "B", "B", "B", "B", "C", "C", "C", "C"],
    );
    let entries = vec![
        text("y", "y"),
        text("x", "x"),
        text("group", "segment"),
        number("draws", 200.0),
        number("chains", 2.0),
        number("warmup", 200.0),
        number("seed", 1.0),
    ];
    let cfg = config(entries);
    let model = match VaryingVarianceGaussian.compile(&cfg, &data, double(0.0)) {
        Ok(m) => m,
        Err(e) => panic!(
            "a degenerate dataset must return a refused fit, not an error: {}",
            said(&e)
        ),
    };
    assert_eq!(model.readiness().status, FitStatus::Degenerate);
    let theta = vec![0.2; model.dim()];
    let formulas = model.constrain();
    assert_eq!(formulas.len(), model.params.len());
    for f in &formulas {
        assert!(value_of(f, &theta).is_nan());
    }
}

#[test]
fn f8_varying_variance_the_constrained_draw_is_positive_wherever_the_parameter_is_a_scale() {
    let model =
        compiled(&panel(&[5.0, 6.0, 4.0, 5.5], &[0.5, 2.0, 1.0, 0.7], 15, 0.3), basic());
    let theta: Vec<f64> = (0..model.dim())
        .map(|j| if j == 0 { 5.0 } else { 0.0 } + ((j % 5) as f64 - 2.0) * 0.9)
        .collect();
    let out: Vec<f64> = model.constrain().iter().map(|f| value_of(f, &theta)).collect();
    let p = 2usize;
    assert!(out[p] > 0.0, "pool_scale {}", out[p]);
    assert!(out[p + 1] > 0.0, "sigma_pop {}", out[p + 1]);
    assert!(out[p + 2] > 0.0, "sigma_spread {}", out[p + 2]);
    for g in 0..4 {
        assert!(out[p + 3 + 4 + g] > 0.0, "sigma[{g}] {}", out[p + 3 + 4 + g]);
    }
    assert!(out.iter().all(|v| v.is_finite()));
}

#[test]
fn the_pooling_prior_defaults_to_the_spread_of_the_response() {
    let data = panel(&[1.0, 2.0, 3.0], &[1.0, 0.5, 2.0], 10, 0.0);
    let model = match VaryingVarianceGaussian.compile(&config(basic()), &data, double(4.25)) {
        Ok(m) => m,
        Err(e) => panic!("{}", said(&e)),
    };
    assert_eq!(f64::from_bits(model.prior.pool_scale.bits), 4.25);
    assert_eq!(f64::from_bits(model.prior.sigma_spread.bits), 1.0);
    let set = with(table("prior", vec![number("pool_scale", 2.0)]));
    let model = match VaryingVarianceGaussian.compile(&config(set), &data, double(4.25)) {
        Ok(m) => m,
        Err(e) => panic!("{}", said(&e)),
    };
    assert_eq!(f64::from_bits(model.prior.pool_scale.bits), 2.0);
}

#[test]
fn the_blocks_of_a_varying_variance_model_are_laid_end_to_end() {
    let model = compiled(&panel(&[1.0, 2.0, 3.0], &[1.0, 0.5, 2.0], 10, 0.0), basic());
    let l = model.layout();
    assert_eq!((l.fixed, l.z, l.lt, l.lsm, l.w, l.lts), (0, 2, 5, 6, 7, 10));
    assert_eq!(model.offsets, vec![0, 10, 20, 30]);
    assert!(model.has_intercept());
    let theta: Vec<f64> = (0..11).map(|j| j as f64 / 8.0 - 0.5).collect();
    let out: Vec<f64> = model.constrain().iter().map(|f| value_of(f, &theta)).collect();
    assert_eq!(out[0], theta[0]);
    assert_eq!(out[2], theta[5].exp());
    assert_eq!(out[3], theta[6].exp());
    assert_eq!(out[4], theta[10].exp());
    assert_eq!(out[6], theta[5].exp() * theta[3]);
    assert_eq!(out[9], (theta[6] + theta[10].exp() * theta[8]).exp());
}

#[test]
fn a_response_without_spread_still_leaves_a_pooling_scale_above_zero() {
    let data = panel(&[1.0, 2.0, 3.0], &[1.0, 0.5, 2.0], 10, 0.0);
    for sd in [0.0, -0.0, f64::NAN, f64::MIN_POSITIVE / 2.0] {
        let model = match VaryingVarianceGaussian.compile(&config(basic()), &data, double(sd)) {
            Ok(m) => m,
            Err(e) => panic!("{}", said(&e)),
        };
        assert_eq!(f64::from_bits(model.prior.pool_scale.bits), f64::MIN_POSITIVE);
    }
}

#[test]
fn a_panel_is_read_by_its_response_its_predictors_and_its_groups() {
    let data = panel(&[1.0, 2.0, 3.0], &[0.5, 1.0, 1.5], 6, 0.25);
    let r = match VaryingVarianceGaussian.reading(&config(basic()), &data) {
        Ok(r) => r,
        Err(e) => panic!("{}", said(&e)),
    };
    assert_eq!(r.numeric.len(), r.numbers.len());
    assert_eq!(r.keys.len(), 1);
    assert_eq!(r.rows.len(), compiled(&data, basic()).y.len());
    assert_eq!(r.labels[0].len(), 18);
}
