use anofox_bayes_core::catalog::f4_payment_delay::{CompiledPaymentDelay, Dist, PaymentDelay};
use anofox_bayes_core::catalog::lookup;
use anofox_bayes_core::formula::Formula;
use anofox_bayes_core::types::{EngineKind, FamilyCode, FitStatus};
use anofox_bayes_core::config::{Config, Entry, Value};
use anofox_bayes_core::data::{DataView, KeyColumn, NumericColumn};
use anofox_bayes_core::double::Double;
use anofox_bayes_core::errors::{BayesError, Message, Part};

fn double(v: f64) -> Double {
    Double { bits: v.to_bits() }
}

fn number(name: &str, v: f64) -> Entry {
    Entry { name: name.to_string(), value: Value::Number(double(v)) }
}

fn text(name: &str, v: &str) -> Entry {
    Entry { name: name.to_string(), value: Value::Text(v.to_string()) }
}

#[allow(dead_code)]
fn list(name: &str, v: &[&str]) -> Entry {
    Entry {
        name: name.to_string(),
        value: Value::List(v.iter().map(|s| s.to_string()).collect()),
    }
}

#[allow(dead_code)]
fn table(name: &str, entries: Vec<Entry>) -> Entry {
    Entry { name: name.to_string(), value: Value::Table(entries) }
}

fn config(entries: Vec<Entry>) -> Config {
    Config { entries }
}

fn frame(n_rows: usize) -> DataView {
    DataView::new(n_rows)
}

fn numeric(data: &mut DataView, name: &str, values: Vec<f64>) {
    let valid = vec![true; values.len()];
    let column = NumericColumn {
        name: name.to_string(),
        values: values.into_iter().map(double).collect(),
        valid,
    };
    assert!(data.add_numeric(column).is_ok());
}

#[allow(dead_code)]
fn key<S: AsRef<str>>(data: &mut DataView, name: &str, values: &[S]) {
    let column = KeyColumn {
        name: name.to_string(),
        values: values.iter().map(|s| s.as_ref().to_string()).collect(),
        valid: vec![true; values.len()],
    };
    assert!(data.add_key(column).is_ok());
}

fn render(message: &Message) -> String {
    let mut out = String::new();
    for part in &message.parts {
        match part {
            Part::Text(s) => out.push_str(s),
            Part::Number(v) => out.push_str(&format!("{}", f64::from_bits(v.bits))),
            Part::Numbers(v) => {
                let all: Vec<f64> = v.iter().map(|x| f64::from_bits(x.bits)).collect();
                out.push_str(&format!("{:?}", all));
            }
        }
    }
    out
}

fn said(e: &BayesError) -> String {
    render(&e.describe())
}

#[allow(dead_code)]
fn names_slot(e: &BayesError, wanted: &str) -> bool {
    matches!(e, BayesError::Config { slot, .. } if slot == wanted)
}
fn value_of(formula: &Formula, theta: &[f64]) -> f64 {
    match *formula {
        Formula::Coordinate { at } => theta[at],
        Formula::Exp { at } => theta[at].exp(),
        Formula::MinusExp { at } => -theta[at].exp(),
        Formula::Scaled { log_scale, at } => theta[log_scale].exp() * theta[at],
        Formula::ExpSum { base, log_scale, at } => {
            (theta[base] + theta[log_scale].exp() * theta[at]).exp()
        }
        Formula::MinusExpSum { base, log_scale, at } => {
            -(theta[base] + theta[log_scale].exp() * theta[at]).exp()
        }
        Formula::Fixed { value } => f64::from_bits(value.bits),
        Formula::Absent => f64::NAN,
    }
}

fn ledger(n_groups: usize, n_per: usize) -> DataView {
    let mut delay = Vec::new();
    let mut segment = Vec::new();
    for j in 0..n_groups {
        for t in 0..n_per {
            delay.push(20.0 + 7.0 * j as f64 + ((t * 5 + j) % 11) as f64 * 1.5);
            segment.push(format!("SEG-{j:03}"));
        }
    }
    let mut data = frame(delay.len());
    numeric(&mut data, "delay_days", delay);
    key(&mut data, "segment", &segment);
    data
}

fn basic() -> Vec<Entry> {
    vec![text("y", "delay_days"), text("group", "segment")]
}

fn with(more: Entry) -> Vec<Entry> {
    let mut entries = basic();
    entries.push(more);
    entries
}

fn refused(data: &DataView, entries: Vec<Entry>) -> BayesError {
    match PaymentDelay.compile(&config(entries), data) {
        Err(e) => e,
        Ok(_) => panic!("expected a refusal"),
    }
}

fn compiled(data: &DataView, entries: Vec<Entry>) -> CompiledPaymentDelay {
    match PaymentDelay.compile(&config(entries), data) {
        Ok(m) => m,
        Err(e) => panic!("{}", said(&e)),
    }
}

#[test]
fn f4_payment_delay_the_family_is_in_the_catalog_under_its_own_code() {
    let family = lookup("payment_delay").unwrap();
    assert_eq!(family.code(), FamilyCode::PaymentDelay);
    assert_eq!(family.default_engine(), EngineKind::Nuts);
    assert_eq!(family.code().number(), 4);
}

#[test]
fn the_parameters_are_the_coefficients_two_scales_and_two_per_group() {
    let model = compiled(&ledger(3, 12), basic());
    let names: Vec<String> =
        model.params.iter().map(|p| format!("{}/{}", p.group_id, p.name)).collect();
    assert_eq!(
        names,
        vec![
            "__global__/intercept",
            "__global__/tau",
            "__global__/shape",
            "SEG-000/u",
            "SEG-000/mu",
            "SEG-001/u",
            "SEG-001/mu",
            "SEG-002/u",
            "SEG-002/mu",
        ]
    );
    assert_eq!(model.dim(), 3 + 3);
}

#[test]
fn the_dispersion_is_named_after_the_distribution_it_belongs_to() {
    let model = compiled(&ledger(3, 12), with(text("dist", "lognormal")));
    assert!(model.params.iter().any(|p| p.name == "sigma" && p.group_id == "__global__"));
    assert!(model.params.iter().all(|p| p.name != "shape"));
}

#[test]
fn f4_payment_delay_an_explicit_laplace_request_is_refused_with_its_reason() {
    let err = refused(&ledger(4, 10), with(text("engine", "laplace")));
    assert!(names_slot(&err, "engine"), "{}", said(&err));
    assert!(said(&err).contains("NUTS only"), "{}", said(&err));
}

#[test]
fn f4_payment_delay_a_prior_predictive_check_is_refused_because_there_is_no_closed_form_prior_draw()
{
    let err = refused(&ledger(4, 10), with(text("sample_from", "prior")));
    assert!(names_slot(&err, "sample_from"), "{}", said(&err));
}

#[test]
fn a_delay_measured_from_the_due_date_is_refused_with_the_clock_named() {
    let mut data = frame(9);
    numeric(&mut data, "delay_days", vec![3.0, -2.0, 8.0, 4.0, 1.0, 9.0, 2.0, 7.0, 5.0]);
    key(&mut data, "segment", &["A", "A", "A", "B", "B", "B", "C", "C", "C"]);
    let err = refused(&data, basic());
    assert!(names_slot(&err, "y"), "{}", said(&err));
    let msg = said(&err);
    assert!(msg.contains("invoice date"), "{msg}");
    assert!(msg.contains("censored_aft"), "{msg}");
}

#[test]
fn a_zero_delay_is_refused_rather_than_taken_as_a_duration() {
    let mut data = frame(9);
    numeric(&mut data, "delay_days", vec![3.0, 0.0, 8.0, 4.0, 1.0, 9.0, 2.0, 7.0, 5.0]);
    key(&mut data, "segment", &["A", "A", "A", "B", "B", "B", "C", "C", "C"]);
    assert!(names_slot(&refused(&data, basic()), "y"));
}

#[test]
fn too_few_segments_cannot_identify_a_pooling_scale() {
    let model = compiled(&ledger(2, 20), basic());
    let r = model.readiness();
    assert_eq!(r.status, FitStatus::InsufficientData);
    assert!(render(&r.reasons[0]).contains("min_groups"));
}

#[test]
fn a_ledger_with_no_variation_at_all_is_degenerate_rather_than_fitted() {
    let mut data = frame(12);
    numeric(&mut data, "delay_days", vec![30.0; 12]);
    key(
        &mut data,
        "segment",
        &["A", "A", "A", "A", "B", "B", "B", "B", "C", "C", "C", "C"],
    );
    let model = compiled(&data, basic());
    assert_eq!(model.readiness().status, FitStatus::Degenerate);
    let theta = vec![0.3; model.dim()];
    let formulas = model.constrain();
    assert_eq!(formulas.len(), model.params.len());
    assert!(formulas.iter().all(|f| value_of(f, &theta).is_nan()));
}

#[test]
fn f4_payment_delay_the_group_column_is_required_rather_than_optional() {
    let err = refused(&ledger(4, 10), vec![text("y", "delay_days")]);
    assert!(names_slot(&err, "group"), "{}", said(&err));
}

#[test]
fn f4_payment_delay_an_unknown_slot_is_rejected_with_a_suggestion() {
    let msg = said(&refused(&ledger(4, 10), with(text("distribution", "gamma"))));
    assert!(msg.contains("unknown option"), "{msg}");
    assert!(msg.contains("dist"), "{msg}");
}

#[test]
fn f4_payment_delay_the_constrained_draw_is_positive_wherever_the_parameter_is_a_scale() {
    let model = compiled(&ledger(4, 15), basic());
    let theta: Vec<f64> = (0..model.dim())
        .map(|j| if j == 0 { 3.4 } else { 0.0 } + ((j % 5) as f64 - 2.0) * 0.9)
        .collect();
    let out: Vec<f64> = model.constrain().iter().map(|f| value_of(f, &theta)).collect();
    assert!(out[1] > 0.0, "tau {}", out[1]);
    assert!(out[2] > 0.0, "shape {}", out[2]);
    for g in 0..4 {
        assert!(out[3 + 2 * g + 1] > 0.0, "mu[{g}] {}", out[3 + 2 * g + 1]);
    }
    assert!(out.iter().all(|v| v.is_finite()));
}

#[test]
fn a_delay_distribution_is_parsed_by_name_and_names_its_dispersion() {
    assert_eq!(Dist::parse("gamma").ok().map(|d| d.dispersion_name()), Some("shape"));
    assert_eq!(Dist::parse("lognormal").ok().map(|d| d.dispersion_name()), Some("sigma"));
    match Dist::parse("weibull") {
        Err(e) => assert!(names_slot(&e, "dist")),
        Ok(_) => panic!("weibull is no delay distribution"),
    }
}

#[test]
fn a_segments_mean_is_the_level_and_the_scaled_offset() {
    let model = compiled(&ledger(3, 12), basic());
    let theta = vec![3.0, -1.0, 0.5, 0.2, -0.4, 0.7];
    let out: Vec<f64> = model.constrain().iter().map(|f| value_of(f, &theta)).collect();
    let tau = (-1.0f64).exp();
    assert_eq!(out[0], 3.0);
    assert_eq!(out[1], tau);
    assert_eq!(out[2], 0.5f64.exp());
    assert_eq!(out[5], tau * -0.4);
    assert_eq!(out[6], (3.0 + tau * -0.4).exp());
}

#[test]
fn an_open_item_is_refused_rather_than_left_out() {
    let mut data = ledger(4, 10);
    assert!(compiled(&data, basic()).params.len() > 3);
    data.numeric[0].valid[13] = false;
    let err = refused(&data, basic());
    assert!(names_slot(&err, "y"), "{}", said(&err));
    assert!(said(&err).contains("row 13 has none"), "{}", said(&err));
    assert!(said(&err).contains("censored_aft"), "{}", said(&err));

    data.keys[0].valid[13] = false;
    assert_eq!(compiled(&data, basic()).n_obs(), 39);
}

#[test]
fn the_description_names_the_family_for_segments_that_differ_in_spread() {
    let text = PaymentDelay.description();
    assert!(text.contains("'varying_variance_gaussian'"), "{text}");
    assert!(lookup("varying_variance_gaussian").is_some());
}

#[test]
fn two_log_scales_are_bounded_before_a_delay_is_evaluated() {
    let model = compiled(&ledger(3, 12), basic());
    let mut theta = vec![double(0.0); model.dim()];
    for at in [model.i_log_tau(), model.i_log_disp()] {
        for (v, fits) in [(30.0, true), (-30.0, true), (30.5, false), (-30.5, false)] {
            theta[at] = double(v);
            assert_eq!(model.is_explorable(&theta), fits, "{v} at {at}");
        }
        theta[at] = double(f64::NAN);
        assert!(!model.is_explorable(&theta));
        theta[at] = double(0.0);
    }
    theta[0] = double(f64::NEG_INFINITY);
    assert!(!model.is_explorable(&theta));
}

#[test]
fn a_ledger_is_read_by_its_delays_and_its_segments() {
    let r = match PaymentDelay.reading(&config(basic()), &ledger(3, 12)) {
        Ok(r) => r,
        Err(e) => panic!("{}", said(&e)),
    };
    assert_eq!(r.numeric, vec!["delay_days".to_string()]);
    assert_eq!(r.keys, vec!["segment".to_string()]);
    assert_eq!(r.rows.len(), 36);
    assert_eq!(r.numbers[0][0], double(20.0));
    assert_eq!(r.labels[0][35], "SEG-002");
}
