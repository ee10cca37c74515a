use anofox_bayes_core::catalog::f3_pooled_gaussian::{
    n_flat, CompiledPooledGaussian, PooledDesign, PooledGaussian, VariancePosterior,
};
use anofox_bayes_core::errors::BayesResult;
use anofox_bayes_core::formula::Formula;
use anofox_bayes_core::types::FitStatus;
use anofox_bayes_core::config::{Config, Entry, Value};
use anofox_bayes_core::data::{DataView, KeyColumn, NumericColumn};
use anofox_bayes_core::double::Double;
use anofox_bayes_core::errors::{BayesError, Message, Part};

fn double(v: f64) -> Double {
    Double { bits: v.to_bits() }
}

fn number(name: &str, v: f64) -> Entry {
    Entry { name: name.to_string(), value: Value::Number(double(v)) }
}

fn text(name: &str, v: &str) -> Entry {
    Entry { name: name.to_string(), value: Value::Text(v.to_string()) }
}

#[allow(dead_code)]
fn list(name: &str, v: &[&str]) -> Entry {
    Entry {
        name: name.to_string(),
        value: Value::List(v.iter().map(|s| s.to_string()).collect()),
    }
}

#[allow(dead_code)]
fn table(name: &str, entries: Vec<Entry>) -> Entry {
    Entry { name: name.to_string(), value: Value::Table(entries) }
}

fn config(entries: Vec<Entry>) -> Config {
    Config { entries }
}

fn frame(n_rows: usize) -> DataView {
    DataView::new(n_rows)
}

fn numeric(data: &mut DataView, name: &str, values: Vec<f64>) {
    let valid = vec![true; values.len()];
    let column = NumericColumn {
        name: name.to_string(),
        values: values.into_iter().map(double).collect(),
        valid,
    };
    assert!(data.add_numeric(column).is_ok());
}

#[allow(dead_code)]
fn key<S: AsRef<str>>(data: &mut DataView, name: &str, values: &[S]) {
    let column = KeyColumn {
        name: name.to_string(),
        values: values.iter().map(|s| s.as_ref().to_string()).collect(),
        valid: vec![true; values.len()],
    };
    assert!(data.add_key(column).is_ok());
}

fn render(message: &Message) -> String {
    let mut out = String::new();
    for part in &message.parts {
        match part {
            Part::Text(s) => out.push_str(s),
            Part::Number(v) => out.push_str(&format!("{}", f64::from_bits(v.bits))),
            Part::Numbers(v) => {
                let all: Vec<f64> = v.iter().map(|x| f64::from_bits(x.bits)).collect();
                out.push_str(&format!("{:?}", all));
            }
        }
    }
    out
}

fn said(e: &BayesError) -> String {
    render(&e.describe())
}

#[allow(dead_code)]
fn names_slot(e: &BayesError, wanted: &str) -> bool {
    matches!(e, BayesError::Config { slot, .. } if slot == wanted)
}
fn value_of(formula: &Formula, theta: &[f64]) -> f64 {
    match *formula {
        Formula::Coordinate { at } => theta[at],
        Formula::Exp { at } => theta[at].exp(),
        Formula::MinusExp { at } => -theta[at].exp(),
        Formula::Scaled { log_scale, at } => theta[log_scale].exp() * theta[at],
        Formula::ExpSum { base, log_scale, at } => {
            (theta[base] + theta[log_scale].exp() * theta[at]).exp()
        }
        Formula::MinusExpSum { base, log_scale, at } => {
            -(theta[base] + theta[log_scale].exp() * theta[at]).exp()
        }
        Formula::Fixed { value } => f64::from_bits(value.bits),
        Formula::Absent => f64::NAN,
    }
}

fn plain(v: &[Double]) -> Vec<f64> {
    v.iter().map(|x| f64::from_bits(x.bits)).collect()
}

/// Solves a symmetric system by elimination, or reports that a pivot vanished.
fn solve(a: &[Vec<f64>], b: &[f64]) -> Option<Vec<f64>> {
    let n = b.len();
    let mut a: Vec<Vec<f64>> = a.to_vec();
    let mut b = b.to_vec();
    for k in 0..n {
        let scale = a[k].iter().fold(1.0f64, |m, v| m.max(v.abs()));
        if a[k][k] <= 1e-10 * scale {
            return None;
        }
        for i in k + 1..n {
            let f = a[i][k] / a[k][k];
            for j in k..n {
                let t = a[k][j];
                a[i][j] -= f * t;
            }
            b[i] -= f * b[k];
        }
    }
    for k in (0..n).rev() {
        for j in k + 1..n {
            b[k] -= a[k][j] * b[j];
        }
        b[k] /= a[k][k];
    }
    Some(b)
}

struct Fit {
    b_n: Vec<f64>,
    a_n: f64,
    model: CompiledPooledGaussian,
}

fn fitted(design: PooledDesign) -> BayesResult<Fit> {
    let x: Vec<Vec<f64>> = design.x.iter().map(|c| plain(c)).collect();
    let y = plain(&design.y);
    let beta_scale = f64::from_bits(design.prior.beta_scale.bits);
    let pool_scale = f64::from_bits(design.pool_scale.bits);
    let precision = design.precision(
        double(1.0 / (beta_scale * beta_scale)),
        double(1.0 / (pool_scale * pool_scale)),
    );
    let p = x.len();
    let mut a = vec![vec![0.0; p]; p];
    let mut xty = vec![0.0; p];
    for j in 0..p {
        for k in 0..p {
            a[j][k] = x[j].iter().zip(&x[k]).map(|(u, v)| u * v).sum();
        }
        a[j][j] += f64::from_bits(precision[j].bits);
        xty[j] = x[j].iter().zip(&y).map(|(u, v)| u * v).sum();
    }
    let Some(b_n) = solve(&a, &xty) else {
        return match design.judge(None) {
            Err(e) => Err(e),
            Ok(_) => panic!("a design without a factor passed"),
        };
    };
    let yty: f64 = y.iter().map(|v| v * v).sum();
    let bab: f64 = b_n.iter().zip(&xty).map(|(u, v)| u * v).sum();
    let a_n = f64::from_bits(design.prior.a0.bits)
        + (y.len() as f64 - n_flat(&precision) as f64) / 2.0;
    let s_n = f64::from_bits(design.prior.s0.bits) + ((yty - bab) / 2.0).max(0.0);
    let variance = VariancePosterior { a_n: double(a_n), s_n: double(s_n) };
    let model = design.judge(Some(variance))?;
    Ok(Fit { b_n, a_n, model })
}

fn compile(data: &DataView, entries: Vec<Entry>) -> BayesResult<Fit> {
    fitted(PooledGaussian.compile(&config(entries), data)?)
}

fn compiled(data: &DataView, entries: Vec<Entry>) -> Fit {
    match compile(data, entries) {
        Ok(f) => f,
        Err(e) => panic!("{}", said(&e)),
    }
}

fn refused(data: &DataView, entries: Vec<Entry>) -> BayesError {
    match compile(data, entries) {
        Err(e) => e,
        Ok(_) => panic!("expected a refusal"),
    }
}

fn index_of(fit: &Fit, name: &str) -> usize {
    fit.model.design.params.iter().position(|p| p.name == name).unwrap()
}

#[test]
fn a_flat_design_solved_here_has_the_least_squares_coefficients_under_its_names() {
    let n = 40;
    let x1: Vec<f64> = (0..n).map(|i| i as f64 / 4.0).collect();
    let x2: Vec<f64> = (0..n).map(|i| ((i % 5) as f64) - 2.0).collect();
    let y: Vec<f64> = (0..n)
        .map(|i| 3.0 + 2.0 * x1[i] - 0.5 * x2[i] + ((i % 3) as f64 - 1.0) * 0.01)
        .collect();
    let mut data = frame(n);
    numeric(&mut data, "y", y);
    numeric(&mut data, "x1", x1);
    numeric(&mut data, "x2", x2);
    let fit = compiled(&data, vec![text("y", "y"), list("x", &["x1", "x2"])]);
    assert!((fit.b_n[index_of(&fit, "intercept")] - 3.0).abs() < 0.01);
    assert!((fit.b_n[index_of(&fit, "beta[x1]")] - 2.0).abs() < 0.005);
    assert!((fit.b_n[index_of(&fit, "beta[x2]")] + 0.5).abs() < 0.005);
}

#[test]
fn a_design_and_its_precision_solved_here_are_a_ridge_fit() {
    let n = 30;
    let x1: Vec<f64> = (0..n).map(|i| (i as f64) / 3.0).collect();
    let y: Vec<f64> =
        (0..n).map(|i| 1.0 + 2.0 * x1[i] + ((i % 4) as f64 - 1.5) * 0.2).collect();
    let mut data = frame(n);
    numeric(&mut data, "y", y.clone());
    numeric(&mut data, "x1", x1.clone());

    let scale = 0.5;
    let fit = compiled(
        &data,
        vec![
            text("y", "y"),
            text("x", "x1"),
            table("prior", vec![number("beta_scale", scale)]),
        ],
    );
    let lambda = 1.0 / (scale * scale);
    let (s_x, s_xx): (f64, f64) = (x1.iter().sum(), x1.iter().map(|v| v * v).sum());
    let (s_y, s_xy): (f64, f64) =
        (y.iter().sum(), x1.iter().zip(&y).map(|(a, b)| a * b).sum());
    let (a11, a12, a22) = (n as f64, s_x, s_xx + lambda);
    let det = a11 * a22 - a12 * a12;
    let b0 = (a22 * s_y - a12 * s_xy) / det;
    let b1 = (a11 * s_xy - a12 * s_y) / det;
    let got0 = fit.b_n[index_of(&fit, "intercept")];
    let got1 = fit.b_n[index_of(&fit, "beta[x1]")];
    assert!((got0 - b0).abs() < 0.01, "intercept {got0} vs ridge {b0}");
    assert!((got1 - b1).abs() < 0.005, "slope {got1} vs ridge {b1}");

    let flat = compiled(&data, vec![text("y", "y"), text("x", "x1")]);
    let flat_slope = flat.b_n[index_of(&flat, "beta[x1]")];
    assert!(got1 < flat_slope, "ridge slope {got1} should shrink below {flat_slope}");
}

#[test]
fn a_pooled_design_solved_here_shrinks_small_groups_further_than_large_ones() {
    let mut y = Vec::new();
    let mut g = Vec::new();
    for i in 0..3 {
        y.push(6.0 + ((i % 3) as f64 - 1.0) * 0.1);
        g.push("SMALL");
    }
    for i in 0..60 {
        y.push(6.0 + ((i % 5) as f64 - 2.0) * 0.1);
        g.push("LARGE");
    }
    for i in 0..60 {
        y.push(5.0 + ((i % 5) as f64 - 2.0) * 0.1);
        g.push("BASE");
    }
    let mut data = frame(y.len());
    numeric(&mut data, "y", y);
    key(&mut data, "segment", &g);
    let fit = compiled(
        &data,
        vec![
            text("y", "y"),
            text("group", "segment"),
            number("pool_scale", 0.5),
            number("intercept", 0.0),
        ],
    );
    let small = fit.b_n[0];
    let large = fit.b_n[1];
    assert!(small < large, "small {small} should shrink below large {large}");
    assert!(large > 5.5, "large group {large} should stay near its data");
    assert_eq!(fit.model.n_groups(), 3);
}

#[test]
fn a_rank_deficient_design_refuses_rather_than_inventing_a_solution() {
    let n = 20;
    let x: Vec<f64> = (0..n).map(|i| i as f64).collect();
    let dup: Vec<f64> = x.iter().map(|v| v * 2.0).collect();
    let y: Vec<f64> = (0..n).map(|i| 1.0 + 0.5 * i as f64).collect();
    let mut data = frame(n);
    numeric(&mut data, "y", y);
    numeric(&mut data, "x", x);
    numeric(&mut data, "dup", dup);
    let err = refused(&data, vec![text("y", "y"), list("x", &["x", "dup"])]);
    assert!(matches!(err, BayesError::SingularMatrix), "{}", said(&err));
}

#[test]
fn a_constant_predictor_alongside_an_intercept_refuses() {
    let n = 20;
    let mut data = frame(n);
    numeric(&mut data, "y", (0..n).map(|i| i as f64).collect());
    numeric(&mut data, "flat", vec![7.0; n]);
    assert!(matches!(
        refused(&data, vec![text("y", "y"), text("x", "flat")]),
        BayesError::SingularMatrix
    ));
}

#[test]
fn fewer_observations_than_parameters_is_reported_before_any_solve() {
    let mut data = frame(2);
    numeric(&mut data, "y", vec![1.0, 2.0]);
    numeric(&mut data, "a", vec![1.0, 2.0]);
    numeric(&mut data, "b", vec![3.0, 1.0]);
    assert!(matches!(
        refused(&data, vec![text("y", "y"), list("x", &["a", "b"])]),
        BayesError::InsufficientData { rows: 2, params: 3 }
    ));
}

#[test]
fn a_perfect_fit_is_degenerate_rather_than_infinitely_confident() {
    let n = 10;
    let x: Vec<f64> = (0..n).map(|i| i as f64).collect();
    let y: Vec<f64> = x.iter().map(|v| 2.0 + 3.0 * v).collect();
    let mut data = frame(n);
    numeric(&mut data, "y", y);
    numeric(&mut data, "x", x);
    let fit = compiled(&data, vec![text("y", "y"), text("x", "x")]);
    assert_eq!(fit.model.readiness.status, FitStatus::Degenerate);
    assert!(!fit.model.draws_exist());
    assert_eq!(
        render(&fit.model.readiness.reasons[0]),
        "the response is perfectly explained by the design (10 observations, 2 parameters), \
         so the residual variance is not estimable"
    );
}

#[test]
fn a_model_with_nothing_to_estimate_is_a_config_error() {
    let mut data = frame(4);
    numeric(&mut data, "y", vec![1.0, 2.0, 3.0, 4.0]);
    let err = refused(&data, vec![text("y", "y"), number("intercept", 0.0)]);
    assert!(said(&err).contains("nothing to estimate"), "{}", said(&err));
}

#[test]
fn a_residual_shape_computed_here_loses_one_degree_of_freedom_per_flat_coefficient() {
    let n = 24usize;
    let x1: Vec<f64> = (0..n).map(|i| i as f64 / 3.0).collect();
    let x2: Vec<f64> = (0..n).map(|i| ((i % 5) as f64) - 2.0).collect();
    let y: Vec<f64> = (0..n)
        .map(|i| 2.0 + 1.5 * x1[i] - 0.4 * x2[i] + ((i % 7) as f64 - 3.0) * 0.5)
        .collect();
    let mut data = frame(n);
    numeric(&mut data, "y", y);
    numeric(&mut data, "x1", x1);
    numeric(&mut data, "x2", x2);
    let fit = compiled(&data, vec![text("y", "y"), list("x", &["x1", "x2"])]);

    let k = 3usize;
    let a_n = (n - k) as f64 / 2.0;
    let expected_cv = 1.0 / (a_n - 2.0).sqrt();
    let cv = 1.0 / (fit.a_n - 2.0).sqrt();
    assert!(
        (cv - expected_cv).abs() < 0.03 * expected_cv,
        "coefficient of variation {cv} vs Inv-chi^2(n-k) prediction {expected_cv}"
    );
    let wrong_cv = 1.0 / (n as f64 / 2.0 - 2.0).sqrt();
    assert!(
        (cv - wrong_cv).abs() > 0.03 * wrong_cv,
        "cv {cv} must be distinguishable from the a_n = n/2 answer {wrong_cv}"
    );
}

#[test]
fn a_residual_shape_computed_here_loses_none_to_a_proper_coefficient_prior() {
    let n = 24usize;
    let mut data = frame(n);
    numeric(&mut data, "y", (0..n).map(|i| 2.0 + ((i % 7) as f64 - 3.0) * 0.5).collect());
    numeric(&mut data, "x1", (0..n).map(|i| i as f64 / 3.0).collect());
    let fit = compiled(
        &data,
        vec![
            text("y", "y"),
            text("x", "x1"),
            table("prior", vec![number("beta_scale", 1.0)]),
        ],
    );
    let a_n = (n as f64 - 1.0) / 2.0;
    let expected_cv = 1.0 / (a_n - 2.0).sqrt();
    let cv = 1.0 / (fit.a_n - 2.0).sqrt();
    assert!(
        (cv - expected_cv).abs() < 0.03 * expected_cv,
        "cv {cv} vs expected {expected_cv}"
    );
}

#[test]
fn sigma_is_the_last_parameter_and_is_positive() {
    let n = 30;
    let mut data = frame(n);
    numeric(&mut data, "y", (0..n).map(|i| 5.0 + ((i % 7) as f64 - 3.0)).collect());
    numeric(&mut data, "x", (0..n).map(|i| i as f64).collect());
    let fit = compiled(&data, vec![text("y", "y"), text("x", "x")]);
    let names: Vec<&str> =
        fit.model.design.params.iter().map(|p| p.name.as_str()).collect();
    assert_eq!(names, vec!["intercept", "beta[x]", "sigma"]);
    assert!(fit.model.draws_exist());
    let formulas = fit.model.constrain();
    for d in 0..2000 {
        let theta = [1.0, -0.5, (d % 41) as f64 / 5.0 - 4.0];
        assert!(value_of(&formulas[2], &theta) > 0.0);
    }
}

#[test]
fn a_slope_prior_must_be_above_zero() {
    let mut data = frame(9);
    numeric(&mut data, "y", (0..9).map(|i| i as f64).collect());
    numeric(&mut data, "x", (0..9).map(|i| (i % 4) as f64).collect());
    for scale in [0.0, -1.0] {
        let err = refused(
            &data,
            vec![
                text("y", "y"),
                text("x", "x"),
                table("prior", vec![number("beta_scale", scale)]),
            ],
        );
        assert!(names_slot(&err, "prior.beta_scale"));
        assert_eq!(said(&err), "prior.beta_scale: must be > 0");
    }
}

#[test]
fn a_grouped_design_holds_its_rows_group_after_group_with_one_indicator_each() {
    let mut data = frame(6);
    numeric(&mut data, "y", vec![1.0, 2.0, 3.0, 4.0, 5.0, 6.0]);
    numeric(&mut data, "x", vec![10.0, 20.0, 30.0, 40.0, 50.0, 60.0]);
    key(&mut data, "g", &["B", "A", "B", "A", "B", "B"]);
    let d = match PooledGaussian.compile(
        &config(vec![text("y", "y"), text("x", "x"), text("group", "g")]),
        &data,
    ) {
        Ok(d) => d,
        Err(e) => panic!("{}", said(&e)),
    };
    assert_eq!(plain(&d.y), vec![1.0, 3.0, 5.0, 6.0, 2.0, 4.0]);
    let x: Vec<Vec<f64>> = d.x.iter().map(|c| plain(c)).collect();
    assert_eq!(x[0], vec![1.0; 6]);
    assert_eq!(x[1], vec![10.0, 30.0, 50.0, 60.0, 20.0, 40.0]);
    assert_eq!(x[2], vec![1.0, 1.0, 1.0, 1.0, 0.0, 0.0]);
    assert_eq!(x[3], vec![0.0, 0.0, 0.0, 0.0, 1.0, 1.0]);
    let names: Vec<String> =
        d.params.iter().map(|p| format!("{}/{}", p.group_id, p.name)).collect();
    assert_eq!(
        names,
        vec![
            "__global__/intercept",
            "__global__/beta[x]",
            "B/group_effect",
            "A/group_effect",
            "__global__/sigma",
        ]
    );
    let precision = plain(&d.precision(double(9.0), double(4.0)));
    assert_eq!(precision, vec![0.0, 0.0, 4.0, 4.0]);
    assert_eq!(n_flat(&d.precision(double(9.0), double(4.0))), 2);
    assert_eq!((d.n_groups, d.n_fixed, d.n_coefficients()), (2, 2, 4));
}

#[test]
fn a_draw_buffer_of_the_wrong_length_is_refused() {
    let mut data = frame(9);
    numeric(&mut data, "y", (0..9).map(|i| ((i * 5) % 7) as f64).collect());
    let fit = compiled(&data, vec![text("y", "y")]);
    assert!(fit.model.check_draw_buffer(2).is_ok());
    match fit.model.check_draw_buffer(5) {
        Err(e) => assert_eq!(said(&e), "dimension mismatch: expected 2 slots, got 5"),
        Ok(()) => panic!("a long buffer passed"),
    }
    assert_eq!((fit.model.n_obs(), fit.model.n_groups(), fit.model.dim()), (9, 1, 2));
    assert!(fit.model.check_gradient_buffers(2, 2).is_ok());
    assert!(fit.model.check_gradient_buffers(1, 2).is_err());
}

fn stores() -> DataView {
    let n = 12;
    let mut data = frame(n);
    numeric(&mut data, "y", (0..n).map(|i| ((i * 7) % 5) as f64 + 0.5 * i as f64).collect());
    numeric(&mut data, "log_price", (0..n).map(|i| (i % 4) as f64 - 1.5).collect());
    numeric(&mut data, "promo", (0..n).map(|i| (i % 2) as f64).collect());
    let store: Vec<&str> = (0..n).map(|i| if i % 3 == 0 { "N" } else { "S" }).collect();
    key(&mut data, "store", &store);
    data
}

fn sloped(slopes: &[&str]) -> Vec<Entry> {
    vec![
        text("y", "y"),
        list("x", &["log_price", "promo"]),
        text("group", "store"),
        list("random_slopes", slopes),
    ]
}

#[test]
fn each_group_gets_its_own_coefficient_on_a_named_predictor() {
    assert!(PooledGaussian.config_slots().contains(&"random_slopes"));
    let fit = compiled(&stores(), sloped(&["log_price", "promo"]));
    let design = &fit.model.design;
    let names: Vec<String> =
        design.params.iter().map(|p| format!("{}/{}", p.group_id, p.name)).collect();
    assert_eq!(
        names,
        vec![
            "__global__/intercept",
            "__global__/beta[log_price]",
            "__global__/beta[promo]",
            "N/group_effect",
            "S/group_effect",
            "N/group_slope[log_price]",
            "S/group_slope[log_price]",
            "N/group_slope[promo]",
            "S/group_slope[promo]",
            "__global__/sigma",
        ]
    );
    assert_eq!(design.x.len(), 9);
    assert_eq!(fit.model.dim(), 10);
    let north = plain(&design.x[3]);
    let price = plain(&design.x[1]);
    for r in 0..12 {
        assert_eq!(plain(&design.x[5])[r], if north[r] == 1.0 { price[r] } else { 0.0 });
        assert_eq!(plain(&design.x[6])[r], if north[r] == 1.0 { 0.0 } else { price[r] });
    }
    assert!(price.iter().any(|v| *v != 0.0));
    let precision = plain(&design.precision(double(9.0), double(4.0)));
    assert_eq!(precision, vec![0.0, 0.0, 0.0, 4.0, 4.0, 4.0, 4.0, 4.0, 4.0]);
}

#[test]
fn a_request_without_random_slopes_has_none() {
    let fit = compiled(&stores(), sloped(&[]));
    assert_eq!(fit.model.design.x.len(), 5);
    assert!(fit.model.design.params.iter().all(|p| !p.name.starts_with("group_slope")));
}

#[test]
fn a_random_slope_must_be_a_predictor_named_once_and_needs_groups() {
    let err = refused(&stores(), sloped(&["promo", "weather"]));
    assert!(names_slot(&err, "random_slopes"), "{}", said(&err));
    assert!(said(&err).contains("'weather'"), "{}", said(&err));
    let err = refused(&stores(), sloped(&["promo", "promo"]));
    assert_eq!(said(&err), "random_slopes: 'promo' is named twice");
    let err = refused(
        &stores(),
        vec![text("y", "y"), text("x", "promo"), text("random_slopes", "promo")],
    );
    assert!(names_slot(&err, "random_slopes"), "{}", said(&err));
    assert!(said(&err).contains("`group`"), "{}", said(&err));
}

#[test]
fn the_slopes_of_the_groups_count_against_the_rows() {
    let mut data = frame(7);
    numeric(&mut data, "y", (0..7).map(|i| i as f64).collect());
    numeric(&mut data, "promo", (0..7).map(|i| (i % 2) as f64).collect());
    key(&mut data, "store", &["N", "N", "S", "S", "W", "W", "W"]);
    let entries = vec![
        text("y", "y"),
        text("x", "promo"),
        text("group", "store"),
        text("random_slopes", "promo"),
    ];
    assert!(matches!(
        refused(&data, entries),
        BayesError::InsufficientData { rows: 7, params: 8 }
    ));
}

#[test]
fn a_design_is_read_by_its_response_and_its_predictors() {
    let mut data = frame(3);
    numeric(&mut data, "y", vec![1.0, 2.0, 3.0]);
    numeric(&mut data, "x1", vec![4.0, 5.0, 6.0]);
    numeric(&mut data, "unread", vec![7.0, 8.0, 9.0]);
    data.numeric[1].valid[0] = false;
    data.numeric[2].valid[1] = false;
    let r = match PooledGaussian.reading(&config(vec![text("y", "y"), text("x", "x1")]), &data) {
        Ok(r) => r,
        Err(e) => panic!("{}", said(&e)),
    };
    assert_eq!(r.numeric, vec!["y".to_string(), "x1".to_string()]);
    assert_eq!(r.rows, vec![1, 2]);
    assert_eq!(r.numbers.iter().map(|c| plain(c)).collect::<Vec<_>>(), vec![
        vec![2.0, 3.0],
        vec![5.0, 6.0],
    ]);
    let missing = PooledGaussian.reading(&config(vec![text("y", "nothing")]), &data);
    assert!(matches!(missing, Err(BayesError::MissingColumn { .. })));
}
