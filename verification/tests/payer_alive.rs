use anofox_bayes_core::catalog::common::LOG_BOX_BITS;
use anofox_bayes_core::catalog::f5_btyd::{
    is_explorable, Boundary, CompiledPayerAlive, CustomerBase, Fitted, Marginal, ModeSearch,
    PayerAlive, LOG_BOUNDARY_BITS, MAX_LOG_SD_BITS, P_ALIVE_SQL,
};
use anofox_bayes_core::formula::Formula;
use anofox_bayes_core::types::FitStatus;
use anofox_bayes_core::config::{Config, Entry, Value};
use anofox_bayes_core::data::{DataView, KeyColumn, NumericColumn};
use anofox_bayes_core::double::Double;
use anofox_bayes_core::errors::{BayesError, Message, Part};

fn double(v: f64) -> Double {
    Double { bits: v.to_bits() }
}

fn number(name: &str, v: f64) -> Entry {
    Entry { name: name.to_string(), value: Value::Number(double(v)) }
}

fn text(name: &str, v: &str) -> Entry {
    Entry { name: name.to_string(), value: Value::Text(v.to_string()) }
}

#[allow(dead_code)]
fn list(name: &str, v: &[&str]) -> Entry {
    Entry {
        name: name.to_string(),
        value: Value::List(v.iter().map(|s| s.to_string()).collect()),
    }
}

#[allow(dead_code)]
fn table(name: &str, entries: Vec<Entry>) -> Entry {
    Entry { name: name.to_string(), value: Value::Table(entries) }
}

fn config(entries: Vec<Entry>) -> Config {
    Config { entries }
}

fn frame(n_rows: usize) -> DataView {
    DataView::new(n_rows)
}

fn numeric(data: &mut DataView, name: &str, values: Vec<f64>) {
    let valid = vec![true; values.len()];
    let column = NumericColumn {
        name: name.to_string(),
        values: values.into_iter().map(double).collect(),
        valid,
    };
    assert!(data.add_numeric(column).is_ok());
}

#[allow(dead_code)]
fn key<S: AsRef<str>>(data: &mut DataView, name: &str, values: &[S]) {
    let column = KeyColumn {
        name: name.to_string(),
        values: values.iter().map(|s| s.as_ref().to_string()).collect(),
        valid: vec![true; values.len()],
    };
    assert!(data.add_key(column).is_ok());
}

fn render(message: &Message) -> String {
    let mut out = String::new();
    for part in &message.parts {
        match part {
            Part::Text(s) => out.push_str(s),
            Part::Number(v) => out.push_str(&format!("{}", f64::from_bits(v.bits))),
            Part::Numbers(v) => {
                let all: Vec<f64> = v.iter().map(|x| f64::from_bits(x.bits)).collect();
                out.push_str(&format!("{:?}", all));
            }
        }
    }
    out
}

fn said(e: &BayesError) -> String {
    render(&e.describe())
}

#[allow(dead_code)]
fn names_slot(e: &BayesError, wanted: &str) -> bool {
    matches!(e, BayesError::Config { slot, .. } if slot == wanted)
}
fn value_of(formula: &Formula, theta: &[f64]) -> f64 {
    match *formula {
        Formula::Coordinate { at } => theta[at],
        Formula::Exp { at } => theta[at].exp(),
        Formula::MinusExp { at } => -theta[at].exp(),
        Formula::Scaled { log_scale, at } => theta[log_scale].exp() * theta[at],
        Formula::ExpSum { base, log_scale, at } => {
            (theta[base] + theta[log_scale].exp() * theta[at]).exp()
        }
        Formula::MinusExpSum { base, log_scale, at } => {
            -(theta[base] + theta[log_scale].exp() * theta[at]).exp()
        }
        Formula::Fixed { value } => f64::from_bits(value.bits),
        Formula::Absent => f64::NAN,
    }
}

fn basic() -> Vec<Entry> {
    vec![text("frequency", "x"), text("recency", "t_x"), text("age", "T")]
}

fn with(more: Entry) -> Vec<Entry> {
    let mut entries = basic();
    entries.push(more);
    entries
}

fn customers(x: Vec<f64>, t_x: Vec<f64>, t: Vec<f64>) -> DataView {
    let mut data = frame(x.len());
    numeric(&mut data, "x", x);
    numeric(&mut data, "t_x", t_x);
    numeric(&mut data, "T", t);
    data
}

fn base(n: usize) -> DataView {
    let x: Vec<f64> = (0..n).map(|i| (i % 4) as f64).collect();
    let t: Vec<f64> = (0..n).map(|i| 30.0 + (i % 23) as f64).collect();
    let t_x: Vec<f64> =
        (0..n).map(|i| if i % 4 == 0 { 0.0 } else { 3.0 + (i % 17) as f64 }).collect();
    customers(x, t_x, t)
}

fn read(data: &DataView, entries: Vec<Entry>) -> CustomerBase {
    match PayerAlive.compile(&config(entries), data) {
        Ok(b) => b,
        Err(e) => panic!("{}", said(&e)),
    }
}

fn refused(data: &DataView, entries: Vec<Entry>) -> BayesError {
    match PayerAlive.compile(&config(entries), data) {
        Err(e) => e,
        Ok(_) => panic!("expected a refusal"),
    }
}

fn marginal(sd: f64) -> Option<Marginal> {
    Some(Marginal { variance: double(sd * sd), sd: double(sd) })
}

fn interior() -> ModeSearch {
    ModeSearch {
        mode: Some(vec![double(-0.1), double(2.5), double(0.1), double(1.1)]),
        gradient: vec![double(1e-9); 4],
        gradient_norm: double(2e-9),
        tolerance: double(1e-3),
        marginals: Some(vec![marginal(0.1), marginal(0.2), marginal(0.3), marginal(0.4)]),
    }
}

fn ends_at(search: ModeSearch) -> Option<Boundary> {
    match search.locate_mode() {
        Fitted::Mode(_) => None,
        Fitted::Boundary(cause) => Some(cause),
    }
}

fn verdict(model: &CompiledPayerAlive) -> (FitStatus, String) {
    let r = model.readiness();
    (r.status, r.reasons.iter().map(render).collect())
}

#[test]
fn p_alive_matches_the_documented_sql_expression() {
    let documented = "1.0 / (1.0 + CASE WHEN frequency = 0 THEN 0.0 ELSE \
                      (a / (b + frequency - 1)) * pow((alpha + age) / (alpha + recency), \
                      r + frequency) END)";
    assert!(
        documented.contains(P_ALIVE_SQL),
        "the documented P(alive) expression is no longer the published one:\n{P_ALIVE_SQL}"
    );
}

#[test]
fn a_base_with_no_repeat_purchases_cannot_identify_the_dropout_process() {
    let n = 200;
    let data = customers(
        vec![0.0; n],
        vec![0.0; n],
        (0..n).map(|i| 20.0 + (i % 30) as f64).collect(),
    );
    let base = read(&data, basic());
    assert!(base.lacks_repeats());
    let model = base.judge(interior());
    let (status, reasons) = verdict(&model);
    assert_eq!(status, FitStatus::Degenerate);
    assert!(reasons.contains("repeat transaction"), "{reasons}");
    assert!(model.refuses());
}

#[test]
fn a_base_below_the_min_customers_threshold_is_reported_as_insufficient() {
    let data = base(1500);
    let model = read(&data, basic()).judge(interior());
    assert_eq!(verdict(&model).0, FitStatus::Converged);

    let model = read(&data, with(number("min_customers", 5000.0))).judge(interior());
    let (status, reasons) = verdict(&model);
    assert_eq!(status, FitStatus::InsufficientData);
    assert!(reasons.contains("min_customers"));
    assert!(!model.refuses());
}

#[test]
fn fewer_customers_than_parameters_is_reported_before_any_search() {
    let data = customers(vec![1.0, 2.0, 0.0], vec![3.0, 4.0, 0.0], vec![10.0, 10.0, 10.0]);
    assert!(matches!(
        refused(&data, basic()),
        BayesError::InsufficientData { rows: 3, params: 4 }
    ));
}

#[test]
fn the_three_statistics_are_required_and_must_exist() {
    let data = base(60);
    assert!(PayerAlive.compile(&config(vec![]), &data).is_err());
    assert!(PayerAlive.compile(&config(vec![text("frequency", "x")]), &data).is_err());
    let err = refused(
        &data,
        vec![text("frequency", "x"), text("recency", "t_x"), text("age", "tenure")],
    );
    assert!(matches!(err, BayesError::MissingColumn { .. }));
    assert!(said(&err).contains("T"), "{}", said(&err));
}

#[test]
fn f5_btyd_an_unknown_slot_is_rejected_with_a_suggestion() {
    let err = refused(&base(60), with(text("recncy", "t_x")));
    assert!(said(&err).contains("did you mean 'recency'"), "{}", said(&err));
}

#[test]
fn f5_btyd_an_unknown_prior_slot_is_rejected_with_its_full_path() {
    let err = refused(
        &base(60),
        with(table("prior", vec![table("r", vec![number("sd", 1.0)])])),
    );
    assert!(names_slot(&err, "prior.r.sd"));
}

#[test]
fn statistics_that_could_not_have_arisen_are_rejected_and_say_which_row() {
    let bad = |x: Vec<f64>, t_x: Vec<f64>, t: Vec<f64>, slot: &str| {
        let err = refused(&customers(x, t_x, t), basic());
        assert!(names_slot(&err, slot), "expected a {slot} error, got {}", said(&err));
    };
    let ok_t = vec![10.0; 6];
    bad(
        vec![1.0, 2.5, 3.0, 1.0, 0.0, 2.0],
        vec![1.0, 2.0, 3.0, 4.0, 0.0, 5.0],
        ok_t.clone(),
        "frequency",
    );
    bad(
        vec![1.0, -2.0, 3.0, 1.0, 0.0, 2.0],
        vec![1.0, 2.0, 3.0, 4.0, 0.0, 5.0],
        ok_t.clone(),
        "frequency",
    );
    bad(vec![1.0; 6], vec![1.0, 2.0, 3.0, 4.0, 5.0, 99.0], ok_t.clone(), "recency");
    bad(vec![1.0; 6], vec![1.0, 2.0, 3.0, 4.0, 5.0, 0.0], ok_t.clone(), "recency");
    bad(vec![1.0; 6], vec![1.0; 6], vec![10.0, 10.0, 10.0, 10.0, 10.0, 0.0], "age");
}

#[test]
fn an_impossible_customer_is_quoted_with_its_numbers() {
    let ok_t = vec![10.0; 6];
    let err = refused(
        &customers(vec![1.0; 6], vec![1.0, 2.0, 3.0, 4.0, 5.0, 99.5], ok_t.clone()),
        basic(),
    );
    assert_eq!(
        said(&err),
        "recency: must lie in [0, age]; row 5 has recency 99.5 against age 10"
    );
    let err = refused(
        &customers(vec![3.0; 6], vec![1.0, 2.0, 3.0, 4.0, 5.0, 0.0], ok_t),
        basic(),
    );
    assert_eq!(
        said(&err),
        "recency: a customer with 3 repeat transactions cannot have recency 0; row 5"
    );
}

#[test]
fn a_mode_search_is_stopped_by_the_first_thing_that_says_it_is_none() {
    assert_eq!(ends_at(interior()), None);

    let mut s = interior();
    s.mode = None;
    assert_eq!(ends_at(s), Some(Boundary::SearchDidNotFinish));

    for v in [25.5, -25.5, f64::INFINITY, f64::NAN] {
        let mut s = interior();
        s.mode = Some(vec![double(0.0), double(v), double(0.0), double(0.0)]);
        s.gradient = vec![double(f64::NAN); 4];
        assert_eq!(ends_at(s), Some(Boundary::LeftTheAdmissibleRange));
    }
    let mut s = interior();
    s.mode = Some(vec![double(25.0), double(-25.0), double(0.0), double(0.0)]);
    assert_eq!(ends_at(s), None);

    let mut s = interior();
    s.gradient = vec![double(0.0), double(f64::NAN), double(0.0), double(0.0)];
    assert_eq!(ends_at(s), Some(Boundary::SearchDidNotFinish));

    let mut s = interior();
    s.gradient_norm = double(1e-3);
    assert_eq!(ends_at(s), Some(Boundary::NotStationary));

    let mut s = interior();
    s.marginals = None;
    assert_eq!(ends_at(s), Some(Boundary::CurvatureIsNotAPosterior));

    let mut s = interior();
    s.marginals = Some(vec![marginal(0.1), None, marginal(9.0), marginal(0.1)]);
    assert_eq!(ends_at(s), Some(Boundary::CurvatureIsNotAPosterior));

    for m in [
        Marginal { variance: double(9.61), sd: double(3.1) },
        Marginal { variance: double(-1.0), sd: double(f64::NAN) },
        Marginal { variance: double(f64::INFINITY), sd: double(f64::INFINITY) },
    ] {
        let mut s = interior();
        s.marginals = Some(vec![marginal(3.0), Some(m), None, marginal(0.1)]);
        assert_eq!(ends_at(s), Some(Boundary::FlatRidge));
    }
}

#[test]
fn a_boundary_refuses_every_draw_and_says_why() {
    let mut s = interior();
    s.mode = None;
    let model = read(&base(60), basic()).judge(s);
    let (status, reasons) = verdict(&model);
    assert_eq!(status, FitStatus::Degenerate);
    assert!(reasons.contains("no interior maximum for these 60 customers"), "{reasons}");
    assert!(reasons.contains(Boundary::SearchDidNotFinish.explain()), "{reasons}");
    assert!(reasons.contains("or set a proper `prior`"), "{reasons}");
    assert!(model.constrain().iter().all(|f| value_of(f, &[0.0; 4]).is_nan()));
    assert_eq!(model.initial(), vec![double(0.0); 4]);

    let spread = || vec![number("log_sd", 0.7)];
    let proper = with(table(
        "prior",
        vec![
            table("r", spread()),
            table("alpha", spread()),
            table("a", spread()),
            table("b", spread()),
        ],
    ));
    let mut s = interior();
    s.mode = None;
    let (_, reasons) = verdict(&read(&base(60), proper).judge(s));
    assert!(reasons.contains("prior is already proper"), "{reasons}");
}

#[test]
fn an_interior_mode_reports_the_exponentials_of_its_coordinates() {
    let model = read(&base(60), basic()).judge(interior());
    let theta = [-0.1, 2.5, 0.1, 1.1];
    let out: Vec<f64> = model.constrain().iter().map(|f| value_of(f, &theta)).collect();
    assert_eq!(out, theta.iter().map(|v| v.exp()).collect::<Vec<f64>>());
    assert_eq!(model.initial(), theta.iter().map(|v| double(*v)).collect::<Vec<Double>>());
    let names: Vec<&str> = model.base.params.iter().map(|p| p.name.as_str()).collect();
    assert_eq!(names, vec!["r", "alpha", "a", "b"]);
    assert_eq!((model.n_obs(), model.n_groups(), model.dim()), (60, 1, 4));
}

#[test]
fn the_churn_bounds_are_the_numbers_they_stand_for() {
    assert_eq!(f64::from_bits(LOG_BOUNDARY_BITS), 25.0);
    assert_eq!(f64::from_bits(MAX_LOG_SD_BITS), 3.0);
}

#[test]
fn every_boundary_has_an_explanation_of_its_own() {
    let all = [
        Boundary::SearchDidNotFinish,
        Boundary::LeftTheAdmissibleRange,
        Boundary::NotStationary,
        Boundary::CurvatureIsNotAPosterior,
        Boundary::FlatRidge,
    ];
    for a in all {
        for b in all {
            assert_eq!(a.explain() == b.explain(), a == b);
        }
    }
}

#[test]
fn a_search_that_does_not_have_four_coordinates_is_no_mode() {
    let mut s = interior();
    s.mode = Some(Vec::new());
    assert_eq!(ends_at(s), Some(Boundary::SearchDidNotFinish));

    let mut s = interior();
    s.gradient = vec![double(0.0); 3];
    assert_eq!(ends_at(s), Some(Boundary::SearchDidNotFinish));

    let mut s = interior();
    s.marginals = Some(vec![marginal(0.1); 3]);
    assert_eq!(ends_at(s), Some(Boundary::CurvatureIsNotAPosterior));
}

#[test]
fn a_point_is_explored_only_where_every_coordinate_is_in_bounds() {
    let at = |v: f64| vec![double(0.0), double(-30.0), double(v), double(30.0)];
    for (v, fits) in
        [(0.0, true), (30.0, true), (30.5, false), (-30.5, false), (f64::NAN, false)]
    {
        assert_eq!(is_explorable(&at(v)), fits, "{v}");
    }
    assert_eq!(f64::from_bits(LOG_BOX_BITS), 30.0);
}

#[test]
fn a_customer_base_is_read_by_three_columns_and_no_key() {
    let data = customers(vec![1.0, 0.0], vec![2.0, 0.0], vec![9.0, 8.0]);
    let r = match PayerAlive.reading(&config(basic()), &data) {
        Ok(r) => r,
        Err(e) => panic!("{}", said(&e)),
    };
    assert_eq!(r.numeric, vec!["x".to_string(), "t_x".to_string(), "T".to_string()]);
    assert!(r.keys.is_empty() && r.labels.is_empty());
    assert_eq!(r.rows, vec![0, 1]);
    assert_eq!(r.numbers[2], vec![double(9.0), double(8.0)]);
}
