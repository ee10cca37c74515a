use anofox_bayes_core::catalog::f6_hier_elasticity::{CompiledHierElasticity, HierElasticity};
use anofox_bayes_core::catalog::lookup;
use anofox_bayes_core::formula::Formula;
use anofox_bayes_core::types::{EngineKind, FamilyCode, FitStatus};
use anofox_bayes_core::config::{Config, Entry, Value};
use anofox_bayes_core::data::{DataView, KeyColumn, NumericColumn};
use anofox_bayes_core::double::Double;
use anofox_bayes_core::errors::{BayesError, Message, Part};

fn double(v: f64) -> Double {
    Double { bits: v.to_bits() }
}

fn number(name: &str, v: f64) -> Entry {
    Entry { name: name.to_string(), value: Value::Number(double(v)) }
}

fn text(name: &str, v: &str) -> Entry {
    Entry { name: name.to_string(), value: Value::Text(v.to_string()) }
}

#[allow(dead_code)]
fn list(name: &str, v: &[&str]) -> Entry {
    Entry {
        name: name.to_string(),
        value: Value::List(v.iter().map(|s| s.to_string()).collect()),
    }
}

#[allow(dead_code)]
fn table(name: &str, entries: Vec<Entry>) -> Entry {
    Entry { name: name.to_string(), value: Value::Table(entries) }
}

fn config(entries: Vec<Entry>) -> Config {
    Config { entries }
}

fn frame(n_rows: usize) -> DataView {
    DataView::new(n_rows)
}

fn numeric(data: &mut DataView, name: &str, values: Vec<f64>) {
    let valid = vec![true; values.len()];
    let column = NumericColumn {
        name: name.to_string(),
        values: values.into_iter().map(double).collect(),
        valid,
    };
    assert!(data.add_numeric(column).is_ok());
}

#[allow(dead_code)]
fn key<S: AsRef<str>>(data: &mut DataView, name: &str, values: &[S]) {
    let column = KeyColumn {
        name: name.to_string(),
        values: values.iter().map(|s| s.as_ref().to_string()).collect(),
        valid: vec![true; values.len()],
    };
    assert!(data.add_key(column).is_ok());
}

fn render(message: &Message) -> String {
    let mut out = String::new();
    for part in &message.parts {
        match part {
            Part::Text(s) => out.push_str(s),
            Part::Number(v) => out.push_str(&format!("{}", f64::from_bits(v.bits))),
            Part::Numbers(v) => {
                let all: Vec<f64> = v.iter().map(|x| f64::from_bits(x.bits)).collect();
                out.push_str(&format!("{:?}", all));
            }
        }
    }
    out
}

fn said(e: &BayesError) -> String {
    render(&e.describe())
}

#[allow(dead_code)]
fn names_slot(e: &BayesError, wanted: &str) -> bool {
    matches!(e, BayesError::Config { slot, .. } if slot == wanted)
}
fn value_of(formula: &Formula, theta: &[f64]) -> f64 {
    match *formula {
        Formula::Coordinate { at } => theta[at],
        Formula::Exp { at } => theta[at].exp(),
        Formula::MinusExp { at } => -theta[at].exp(),
        Formula::Scaled { log_scale, at } => theta[log_scale].exp() * theta[at],
        Formula::ExpSum { base, log_scale, at } => {
            (theta[base] + theta[log_scale].exp() * theta[at]).exp()
        }
        Formula::MinusExpSum { base, log_scale, at } => {
            -(theta[base] + theta[log_scale].exp() * theta[at]).exp()
        }
        Formula::Fixed { value } => f64::from_bits(value.bits),
        Formula::Absent => f64::NAN,
    }
}

fn panel(n_groups: usize, n_per: usize, still: Option<usize>, spread: f64) -> DataView {
    let mut units = Vec::new();
    let mut log_price = Vec::new();
    let mut segment = Vec::new();
    for j in 0..n_groups {
        for t in 0..n_per {
            let p = if still == Some(j) {
                0.0
            } else {
                spread * ((t as f64) / ((n_per - 1) as f64) - 0.5)
            };
            units.push((100.0 + 20.0 * j as f64 - 60.0 * p + ((t * 7 + j) % 5) as f64).round());
            log_price.push(p);
            segment.push(format!("SEG-{j:03}"));
        }
    }
    let mut data = frame(units.len());
    numeric(&mut data, "units", units);
    numeric(&mut data, "log_price", log_price);
    key(&mut data, "segment", &segment);
    data
}

fn basic() -> Vec<Entry> {
    vec![text("y", "units"), text("price", "log_price"), text("group", "segment")]
}

fn with(more: Entry) -> Vec<Entry> {
    let mut entries = basic();
    entries.push(more);
    entries
}

fn refused(data: &DataView, entries: Vec<Entry>) -> BayesError {
    match HierElasticity.compile(&config(entries), data) {
        Err(e) => e,
        Ok(_) => panic!("expected a refusal"),
    }
}

fn compiled(data: &DataView, entries: Vec<Entry>) -> CompiledHierElasticity {
    match HierElasticity.compile(&config(entries), data) {
        Ok(panel) => {
            let spans: Vec<Double> = panel
                .price_ranges()
                .iter()
                .map(|(lo, hi)| double(f64::from_bits(hi.bits) - f64::from_bits(lo.bits)))
                .collect();
            panel.judge(&spans)
        }
        Err(e) => panic!("{}", said(&e)),
    }
}

#[test]
fn f6_hier_elasticity_the_family_is_in_the_catalog_under_its_own_code() {
    let family = lookup("hier_elasticity").unwrap();
    assert_eq!(family.code(), FamilyCode::HierElasticity);
    assert_eq!(family.default_engine(), EngineKind::Nuts);
    assert_eq!(family.code().number(), 6);
}

#[test]
fn each_segments_elasticity_is_reported_whole_rather_than_as_an_offset() {
    let model = compiled(&panel(4, 12, None, 0.5), basic());
    let names: Vec<String> =
        model.panel.params.iter().map(|p| format!("{}/{}", p.group_id, p.name)).collect();
    assert_eq!(
        &names[..4],
        &[
            "__global__/intercept",
            "__global__/elasticity",
            "__global__/tau",
            "__global__/tau_level",
        ]
    );
    assert_eq!(names[4], "__global__/phi");
    assert_eq!(names[5], "SEG-000/group_effect");
    assert_eq!(names[6], "SEG-000/group_elasticity");
    assert_eq!(model.dim(), 5 + 2 * 4);
}

#[test]
fn a_segment_on_a_fixed_price_list_is_named_rather_than_quietly_pooled() {
    let model = compiled(&panel(5, 10, Some(2), 0.6), basic());
    let r = model.readiness();
    assert_eq!(r.status, FitStatus::InsufficientData);
    assert_eq!(
        model.unready_groups(),
        vec![("SEG-002".to_string(), FitStatus::InsufficientData)]
    );
    assert_eq!(model.n_groups_unready(), 1);
    let reason = render(&r.reasons[0]);
    assert!(reason.contains("SEG-002"), "{reason}");
    assert!(reason.contains("pooled prior"), "{reason}");
    assert_eq!(model.n_groups(), 5);
}

#[test]
fn a_panel_with_no_price_variation_anywhere_is_degenerate() {
    let model = compiled(&panel(4, 10, None, 0.0), basic());
    let r = model.readiness();
    assert_eq!(r.status, FitStatus::Degenerate);
    assert!(render(&r.reasons[0]).contains("Keine Aussage"));
    assert_eq!(model.n_groups_unready(), model.n_groups());
    let theta = vec![0.1; model.dim()];
    assert!(model.constrain().iter().all(|f| value_of(f, &theta).is_nan()));
}

#[test]
fn f6_hier_elasticity_an_explicit_laplace_request_is_refused_with_its_reason() {
    let err = refused(&panel(4, 10, None, 0.5), with(text("engine", "laplace")));
    assert!(names_slot(&err, "engine"), "{}", said(&err));
    assert!(said(&err).contains("NUTS only"), "{}", said(&err));
}

#[test]
fn f6_hier_elasticity_a_prior_predictive_check_is_refused_because_there_is_no_closed_form_prior_draw()
{
    let err = refused(&panel(4, 10, None, 0.5), with(text("sample_from", "prior")));
    assert!(names_slot(&err, "sample_from"), "{}", said(&err));
}

#[test]
fn the_price_column_cannot_also_be_a_control() {
    let err = refused(&panel(4, 10, None, 0.5), with(text("x", "log_price")));
    assert!(names_slot(&err, "x"), "{}", said(&err));
}

#[test]
fn a_fractional_volume_names_the_gamma_likelihood() {
    let mut data = frame(12);
    numeric(&mut data, "units", (0..12).map(|i| 10.5 + i as f64).collect());
    numeric(&mut data, "log_price", (0..12).map(|i| (i % 4) as f64 * 0.1).collect());
    key(
        &mut data,
        "segment",
        &["A", "A", "A", "A", "B", "B", "B", "B", "C", "C", "C", "C"],
    );
    let err = refused(&data, basic());
    assert!(names_slot(&err, "y"), "{}", said(&err));
    assert!(said(&err).contains("gamma"), "{}", said(&err));
}

#[test]
fn too_few_segments_cannot_identify_the_pooling_scales() {
    let model = compiled(&panel(2, 20, None, 0.5), basic());
    let r = model.readiness();
    assert_eq!(r.status, FitStatus::InsufficientData);
    assert!(render(&r.reasons[0]).contains("min_groups"));
}

#[test]
fn the_constrained_draw_respects_every_bound_the_model_declares() {
    let model = compiled(&panel(4, 15, None, 0.5), basic());
    let theta: Vec<f64> = (0..model.dim())
        .map(|j| if j == 0 { 5.0 } else { 0.0 } + ((j % 5) as f64 - 2.0) * 0.9)
        .collect();
    let out: Vec<f64> = model.constrain().iter().map(|f| value_of(f, &theta)).collect();
    assert!(out[1] < 0.0, "population elasticity {}", out[1]);
    assert!(out[2] > 0.0, "tau {}", out[2]);
    assert!(out[3] > 0.0, "tau_level {}", out[3]);
    assert!(out[4] > 0.0, "phi {}", out[4]);
    for g in 0..4 {
        assert!(out[5 + 2 * g + 1] < 0.0, "group_elasticity[{g}] {}", out[5 + 2 * g + 1]);
    }
    assert!(out.iter().all(|v| v.is_finite()));
}

#[test]
fn the_price_range_of_a_segment_is_its_lowest_and_highest_price() {
    let panel = match HierElasticity.compile(&config(basic()), &panel(3, 5, Some(1), 0.4)) {
        Ok(p) => p,
        Err(e) => panic!("{}", said(&e)),
    };
    let ranges: Vec<(f64, f64)> = panel
        .price_ranges()
        .iter()
        .map(|(lo, hi)| (f64::from_bits(lo.bits), f64::from_bits(hi.bits)))
        .collect();
    assert_eq!(ranges, vec![(-0.2, 0.2), (0.0, 0.0), (-0.2, 0.2)]);
}

#[test]
fn a_segments_elasticity_is_the_exponential_of_its_own_coordinate_with_a_minus() {
    let model = compiled(&panel(3, 6, None, 0.5), basic());
    assert_eq!(model.dim(), 11);
    let theta: Vec<f64> = (0..11).map(|j| j as f64 / 10.0 - 0.4).collect();
    let out: Vec<f64> = model.constrain().iter().map(|f| value_of(f, &theta)).collect();
    let tau = theta[model.i_log_tau()].exp();
    let psi = theta[model.i_psi()];
    assert_eq!(out[1], -psi.exp());
    assert_eq!(out[8], -(psi + tau * theta[model.i_z0() + 1]).exp());
    let tau_level = theta[model.i_log_tau_level()].exp();
    assert_eq!(out[7], tau_level * theta[model.i_v0() + 1]);
}

#[test]
fn a_price_that_is_not_finite_is_refused() {
    let mut data = panel(3, 6, None, 0.5);
    data.numeric[1].values[4] = double(f64::INFINITY);
    let err = refused(&data, basic());
    assert!(names_slot(&err, "price"), "{}", said(&err));
}

#[test]
fn too_few_segments_implicate_every_segment_even_where_one_stood_still() {
    let mut data = frame(8);
    numeric(&mut data, "units", vec![120.0, 96.0, 81.0, 64.0, 210.0, 190.0, 150.0, 131.0]);
    numeric(&mut data, "log_price", vec![0.0, 0.0, 0.0, 0.0, -0.2, -0.05, 0.1, 0.25]);
    key(&mut data, "segment", &["A", "A", "A", "A", "B", "B", "B", "B"]);
    let model = compiled(&data, basic());
    assert_eq!(model.readiness().status, FitStatus::InsufficientData);
    assert_eq!(
        model.unready_groups(),
        vec![("A".to_string(), FitStatus::InsufficientData)]
    );
    assert_eq!(model.n_groups_unready(), 2);
}

#[test]
fn a_panel_without_volume_implicates_every_segment_even_where_one_stood_still() {
    let mut data = panel(4, 6, Some(1), 0.5);
    for v in data.numeric[0].values.iter_mut() {
        *v = double(0.0);
    }
    let model = compiled(&data, basic());
    assert_eq!(model.readiness().status, FitStatus::Degenerate);
    assert_eq!(model.n_groups_unready(), 4);
    assert_eq!(compiled(&panel(4, 6, None, 0.5), basic()).n_groups_unready(), 0);
}

#[test]
fn four_log_scales_are_bounded_before_an_elasticity_is_evaluated() {
    let model = compiled(&panel(4, 10, None, 0.4), basic());
    let mut theta = vec![double(0.0); model.dim()];
    assert!(model.is_explorable(&theta));
    for at in [model.i_psi(), model.i_log_tau(), model.i_log_tau_level(), model.i_log_disp()] {
        for (v, fits) in [(30.0, true), (-30.0, true), (30.5, false), (f64::NAN, false)] {
            theta[at] = double(v);
            assert_eq!(model.is_explorable(&theta), fits, "{v} at {at}");
        }
        theta[at] = double(0.0);
    }
    theta[0] = double(f64::INFINITY);
    assert!(!model.is_explorable(&theta));
}

#[test]
fn a_price_panel_is_read_by_its_response_its_price_and_its_segments() {
    let r = match HierElasticity.reading(&config(basic()), &panel(3, 10, None, 0.4)) {
        Ok(r) => r,
        Err(e) => panic!("{}", said(&e)),
    };
    assert_eq!(r.numeric, vec!["units".to_string(), "log_price".to_string()]);
    assert_eq!(r.keys, vec!["segment".to_string()]);
    assert_eq!((r.rows.len(), r.numbers[1].len(), r.labels[0].len()), (30, 30, 30));
}
