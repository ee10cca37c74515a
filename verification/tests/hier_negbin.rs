use anofox_bayes_core::catalog::f1_hier_negbin::{
    build, CompiledHierNegbin, HierNegbin, Likelihood,
};
use anofox_bayes_core::catalog::lookup;
use anofox_bayes_core::formula::Formula;
use anofox_bayes_core::types::{EngineKind, FamilyCode, FitStatus};
use anofox_bayes_core::config::{Config, Entry, Value};
use anofox_bayes_core::data::{DataView, KeyColumn, NumericColumn};
use anofox_bayes_core::double::Double;
use anofox_bayes_core::errors::{BayesError, Message, Part};

fn double(v: f64) -> Double {
    Double { bits: v.to_bits() }
}

fn number(name: &str, v: f64) -> Entry {
    Entry { name: name.to_string(), value: Value::Number(double(v)) }
}

fn text(name: &str, v: &str) -> Entry {
    Entry { name: name.to_string(), value: Value::Text(v.to_string()) }
}

#[allow(dead_code)]
fn list(name: &str, v: &[&str]) -> Entry {
    Entry {
        name: name.to_string(),
        value: Value::List(v.iter().map(|s| s.to_string()).collect()),
    }
}

#[allow(dead_code)]
fn table(name: &str, entries: Vec<Entry>) -> Entry {
    Entry { name: name.to_string(), value: Value::Table(entries) }
}

fn config(entries: Vec<Entry>) -> Config {
    Config { entries }
}

fn frame(n_rows: usize) -> DataView {
    DataView::new(n_rows)
}

fn numeric(data: &mut DataView, name: &str, values: Vec<f64>) {
    let valid = vec![true; values.len()];
    let column = NumericColumn {
        name: name.to_string(),
        values: values.into_iter().map(double).collect(),
        valid,
    };
    assert!(data.add_numeric(column).is_ok());
}

#[allow(dead_code)]
fn key<S: AsRef<str>>(data: &mut DataView, name: &str, values: &[S]) {
    let column = KeyColumn {
        name: name.to_string(),
        values: values.iter().map(|s| s.as_ref().to_string()).collect(),
        valid: vec![true; values.len()],
    };
    assert!(data.add_key(column).is_ok());
}

fn render(message: &Message) -> String {
    let mut out = String::new();
    for part in &message.parts {
        match part {
            Part::Text(s) => out.push_str(s),
            Part::Number(v) => out.push_str(&format!("{}", f64::from_bits(v.bits))),
            Part::Numbers(v) => {
                let all: Vec<f64> = v.iter().map(|x| f64::from_bits(x.bits)).collect();
                out.push_str(&format!("{:?}", all));
            }
        }
    }
    out
}

fn said(e: &BayesError) -> String {
    render(&e.describe())
}

#[allow(dead_code)]
fn names_slot(e: &BayesError, wanted: &str) -> bool {
    matches!(e, BayesError::Config { slot, .. } if slot == wanted)
}
fn value_of(formula: &Formula, theta: &[f64]) -> f64 {
    match *formula {
        Formula::Coordinate { at } => theta[at],
        Formula::Exp { at } => theta[at].exp(),
        Formula::MinusExp { at } => -theta[at].exp(),
        Formula::Scaled { log_scale, at } => theta[log_scale].exp() * theta[at],
        Formula::ExpSum { base, log_scale, at } => {
            (theta[base] + theta[log_scale].exp() * theta[at]).exp()
        }
        Formula::MinusExpSum { base, log_scale, at } => {
            -(theta[base] + theta[log_scale].exp() * theta[at]).exp()
        }
        Formula::Fixed { value } => f64::from_bits(value.bits),
        Formula::Absent => f64::NAN,
    }
}

fn panel(n_groups: usize, n_per: usize) -> DataView {
    let mut units = Vec::new();
    let mut sku = Vec::new();
    for j in 0..n_groups {
        for t in 0..n_per {
            units.push(((3 * j + 5 * t + j * t) % 7) as f64);
            sku.push(format!("SKU-{j:04}"));
        }
    }
    let mut data = frame(units.len());
    numeric(&mut data, "units", units);
    key(&mut data, "sku", &sku);
    data
}

fn basic() -> Vec<Entry> {
    vec![text("y", "units"), text("group", "sku")]
}

fn with(mut entries: Vec<Entry>, more: Entry) -> Vec<Entry> {
    entries.push(more);
    entries
}

fn refused(data: &DataView, entries: Vec<Entry>) -> String {
    match build(&config(entries), data) {
        Err(e) => said(&e),
        Ok(_) => panic!("expected a refusal"),
    }
}

fn compiled(data: &DataView, entries: Vec<Entry>) -> CompiledHierNegbin {
    match build(&config(entries), data) {
        Ok(m) => m,
        Err(e) => panic!("{}", said(&e)),
    }
}

#[test]
fn the_family_is_in_the_catalog_under_its_own_name_and_code() {
    let f = lookup("hier_negbin").unwrap();
    assert_eq!(f.id(), "hier_negbin");
    assert_eq!(f.code(), FamilyCode::HierNegbin);
    assert_eq!(f.code().number(), 1);
    assert_eq!(f.default_engine(), EngineKind::Nuts);
}

#[test]
fn the_parameter_list_is_the_order_the_draws_are_written_in() {
    let m = compiled(&panel(3, 4), basic());
    let names: Vec<String> =
        m.params.iter().map(|p| format!("{}/{}", p.group_id, p.name)).collect();
    assert_eq!(
        names,
        vec![
            "__global__/intercept",
            "__global__/tau",
            "__global__/phi",
            "SKU-0000/u",
            "SKU-0000/rate",
            "SKU-0001/u",
            "SKU-0001/rate",
            "SKU-0002/u",
            "SKU-0002/rate",
        ]
    );
}

#[test]
fn the_poisson_likelihood_reports_no_dispersion() {
    let m = compiled(&panel(3, 4), with(basic(), text("likelihood", "poisson")));
    assert!(!m.params.iter().any(|p| p.name == "phi"));
    assert_eq!(m.dim(), 2 + 3);
}

#[test]
fn rate_is_exactly_the_intercept_and_the_group_effect() {
    let m = compiled(&panel(4, 5), basic());
    let at = |group: &str, name: &str| {
        m.params.iter().position(|q| q.name == name && q.group_id == group).unwrap()
    };
    let (i_int, i_u, i_rate) =
        (at("__global__", "intercept"), at("SKU-0002", "u"), at("SKU-0002", "rate"));
    let formulas = m.constrain();
    for d in 0..200 {
        let theta: Vec<f64> =
            (0..m.dim()).map(|j| ((d * 7 + j * 13) % 41) as f64 / 20.0 - 1.0).collect();
        let out: Vec<f64> = formulas.iter().map(|f| value_of(f, &theta)).collect();
        let expected = (out[i_int] + out[i_u]).exp();
        assert!(
            (out[i_rate] - expected).abs() < 1e-12,
            "draw {d}: rate {} against exp(intercept + u) {expected}",
            out[i_rate]
        );
    }
}

#[test]
fn too_few_groups_refuses_rather_than_reporting_a_pooling_scale() {
    let m = compiled(&panel(2, 8), basic());
    let r = m.readiness();
    assert_eq!(r.status, FitStatus::InsufficientData);
    assert!(r.reasons.iter().any(|m| render(m).contains("min_groups")));
    assert_eq!(m.n_groups_unready(), 2);
    assert!(!m.refuses());
    let theta = vec![0.3; m.dim()];
    assert!(m.constrain().iter().all(|f| value_of(f, &theta).is_finite()));
}

#[test]
fn a_panel_of_nothing_but_zeros_refuses_and_draws_null() {
    let mut data = frame(9);
    numeric(&mut data, "units", vec![0.0; 9]);
    key(&mut data, "sku", &["A", "A", "A", "B", "B", "B", "C", "C", "C"]);
    let m = compiled(&data, basic());
    assert_eq!(m.readiness().status, FitStatus::Degenerate);
    let theta = vec![0.3; m.dim()];
    let formulas = m.constrain();
    assert_eq!(formulas.len(), m.params.len());
    assert!(formulas.iter().all(|f| value_of(f, &theta).is_nan()));
}

#[test]
fn configuration_errors_name_their_slot() {
    let data = panel(3, 4);

    assert!(refused(&data, vec![text("group", "sku")]).contains("y"));
    assert!(refused(&data, vec![text("y", "units")]).contains("group"));

    let e = refused(&data, vec![text("y", "units"), text("grp", "sku")]);
    assert!(e.contains("did you mean 'group'"), "{e}");

    let e = refused(&data, with(basic(), text("likelihood", "gaussian")));
    assert!(e.contains("likelihood") && e.contains("negbinomial"), "{e}");

    let e = refused(
        &data,
        with(basic(), table("prior", vec![table("tau", vec![number("sd", 1.0)])])),
    );
    assert!(e.contains("prior.tau.sd"), "{e}");

    let e = refused(
        &data,
        with(basic(), table("prior", vec![table("phi", vec![number("log_mean", 1.0)])])),
    );
    assert!(e.contains("prior.phi.log_sd"), "{e}");

    let e = refused(
        &data,
        with(basic(), table("prior", vec![table("tau", vec![number("scale", -1.0)])])),
    );
    assert!(e.contains("prior.tau.scale"), "{e}");
}

#[test]
fn a_response_that_is_not_a_count_is_rejected_before_any_arithmetic() {
    let mut data = frame(6);
    numeric(&mut data, "units", vec![1.0, 2.5, 3.0, 1.0, 0.0, 2.0]);
    key(&mut data, "sku", &["A", "A", "B", "B", "C", "C"]);
    let e = refused(&data, basic());
    assert!(e.contains("whole count"), "{e}");

    let mut data = frame(6);
    numeric(&mut data, "units", vec![1.0, -2.0, 3.0, 1.0, 0.0, 2.0]);
    key(&mut data, "sku", &["A", "A", "B", "B", "C", "C"]);
    let e = refused(&data, basic());
    assert!(e.contains("non-negative"), "{e}");
}

#[test]
fn an_exposure_of_zero_is_rejected_rather_than_producing_an_infinite_offset() {
    let mut data = frame(6);
    numeric(&mut data, "units", vec![1.0, 2.0, 3.0, 1.0, 0.0, 2.0]);
    numeric(&mut data, "weeks", vec![1.0, 0.0, 1.0, 1.0, 1.0, 1.0]);
    key(&mut data, "sku", &["A", "A", "B", "B", "C", "C"]);
    let e = refused(&data, with(basic(), text("exposure", "weeks")));
    assert!(e.contains("exposure"), "{e}");
}

#[test]
fn a_laplace_request_for_demand_is_refused_in_any_case_of_letters() {
    for engine in ["laplace", "Laplace", "LAPLACE"] {
        let e = refused(&panel(5, 6), with(basic(), text("engine", engine)));
        assert!(e.contains("NUTS only"), "{e}");
        assert!(e.contains("pooling scale"), "{e}");
    }
    assert!(build(&config(with(basic(), text("engine", "nuts"))), &panel(5, 6)).is_ok());
}

#[test]
fn a_covariate_sits_between_the_intercept_and_the_pooling_scale() {
    let mut data = panel(3, 4);
    numeric(&mut data, "promo", (0..12).map(|i| (i % 2) as f64).collect());
    numeric(&mut data, "weeks", vec![2.0; 12]);
    let m = compiled(
        &data,
        with(with(basic(), list("x", &["promo"])), text("exposure", "weeks")),
    );
    assert_eq!(m.params[1].name, "beta[promo]");
    assert_eq!(m.n_beta(), 1);
    assert_eq!(m.i_log_tau(), 2);
    assert_eq!(m.i_log_phi(), Some(3));
    assert_eq!(m.i_z0(), 4);
    assert_eq!(m.dim(), 7);
    assert_eq!(m.n_obs(), 12);
    assert_eq!(m.n_groups(), 3);
    assert!(m.check_gradient_buffers(7, 7).is_ok());
    match m.check_gradient_buffers(7, 6) {
        Err(e) => assert_eq!(
            said(&e),
            "dimension mismatch: expected 7 coordinates, got theta 7 and out 6"
        ),
        Ok(()) => panic!("a short buffer passed"),
    }
}

#[test]
fn a_group_may_not_carry_the_reserved_key() {
    let mut data = frame(6);
    numeric(&mut data, "units", vec![1.0, 2.0, 3.0, 1.0, 0.0, 2.0]);
    key(&mut data, "sku", &["A", "A", "__global__", "__global__", "C", "C"]);
    assert!(build(&config(basic()), &data).is_err());
}

#[test]
fn too_few_rows_for_demand_are_reported_with_both_counts() {
    let mut data = frame(2);
    numeric(&mut data, "units", vec![1.0, 2.0]);
    key(&mut data, "sku", &["A", "B"]);
    match build(&config(basic()), &data) {
        Err(BayesError::InsufficientData { rows, params }) => {
            assert_eq!(rows, 2);
            assert!(params >= 2);
        }
        _ => panic!("two rows passed"),
    }
}

#[test]
fn a_prior_is_proper_only_where_the_dispersion_carries_one_too() {
    let scales = || {
        vec![
            table("intercept", vec![number("sd", 2.0)]),
            table("beta", vec![number("scale", 1.0)]),
            table("tau", vec![number("scale", 1.0)]),
        ]
    };
    let m = compiled(&panel(4, 5), with(basic(), table("prior", scales())));
    assert!(!m.prior.is_proper(Likelihood::NegBinomial));
    assert!(m.prior.is_proper(Likelihood::Poisson));

    let mut full = scales();
    full.push(table("phi", vec![number("log_mean", 0.0), number("log_sd", 1.0)]));
    let m = compiled(&panel(4, 5), with(basic(), table("prior", full)));
    assert!(m.prior.is_proper(Likelihood::NegBinomial));
}

#[test]
fn a_catalogue_without_demand_is_told_what_its_own_prior_leaves_open() {
    let mut data = panel(4, 5);
    for v in data.numeric[0].values.iter_mut() {
        *v = double(0.0);
    }
    let scales = || {
        vec![
            table("intercept", vec![number("sd", 2.0)]),
            table("beta", vec![number("scale", 1.0)]),
            table("tau", vec![number("scale", 1.0)]),
        ]
    };
    let reason = |entries: Vec<Entry>| {
        let r = compiled(&data, entries).readiness();
        assert_eq!(r.status, FitStatus::Degenerate);
        render(&r.reasons[0])
    };
    let flat = with(basic(), table("prior", scales()));
    assert!(reason(flat).contains("Set a proper"));
    let poisson =
        with(with(basic(), table("prior", scales())), text("likelihood", "poisson"));
    assert!(reason(poisson).contains("already proper"));
}

#[test]
fn a_log_scale_beyond_the_bound_is_refused_rather_than_explored() {
    let model = compiled(&panel(4, 8), basic());
    let mut theta = vec![double(0.0); model.dim()];
    assert!(model.is_explorable(&theta));
    for at in [model.i_log_tau(), model.i_log_phi().unwrap()] {
        for (v, fits) in [
            (30.0, true),
            (-30.0, true),
            (f64::from_bits(30.0f64.to_bits() + 1), false),
            (-31.0, false),
            (f64::NAN, false),
            (f64::INFINITY, false),
            (f64::NEG_INFINITY, false),
        ] {
            theta[at] = double(v);
            assert_eq!(model.is_explorable(&theta), fits, "{v} at {at}");
        }
        theta[at] = double(0.0);
    }
    theta[0] = double(1e9);
    assert!(model.is_explorable(&theta));
    theta[0] = double(f64::NAN);
    assert!(!model.is_explorable(&theta));
    theta[0] = double(0.0);
    theta[model.i_z0()] = double(f64::INFINITY);
    assert!(model.is_explorable(&theta));
}

#[test]
fn a_poisson_model_has_no_dispersion_to_bound() {
    let model = compiled(&panel(4, 8), with(basic(), text("likelihood", "poisson")));
    let mut theta = vec![double(0.0); model.dim()];
    theta[model.i_z0()] = double(31.0);
    assert!(model.is_explorable(&theta));
    theta[model.i_log_tau()] = double(31.0);
    assert!(!model.is_explorable(&theta));
}

#[test]
fn a_catalogue_read_alike_is_the_same_model() {
    let data = panel(4, 8);
    let mut longer = frame(33);
    let mut units = vec![5.0];
    units.extend(data.numeric[0].values.iter().map(|v| f64::from_bits(v.bits)));
    let mut sku = vec!["NOBODY".to_string()];
    sku.extend(data.keys[0].values.iter().cloned());
    numeric(&mut longer, "units", units);
    key(&mut longer, "sku", &sku);
    longer.keys[0].valid[0] = false;
    let (a, b) = match (
        HierNegbin.reading(&config(basic()), &data),
        HierNegbin.reading(&config(basic()), &longer),
    ) {
        (Ok(a), Ok(b)) => (a, b),
        _ => panic!("both were expected to be read"),
    };
    assert_eq!((&a.numbers, &a.labels), (&b.numbers, &b.labels));
    assert_eq!(b.rows[0], 1);
    let (m, n) = (compiled(&data, basic()), compiled(&longer, basic()));
    assert_eq!(m.y.len(), a.rows.len());
    assert_eq!((m.y, m.group_of, m.group_keys), (n.y, n.group_of, n.group_keys));
    assert!(HierNegbin.reading(&config(vec![text("y", "units")]), &data).is_err());
}
