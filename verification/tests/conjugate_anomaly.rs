use anofox_bayes_core::catalog::f7_conjugate::{
    ChainPlan, CompiledConjugate, ConjugateAnomaly, ConjugatePlan, GroupData, Likelihood,
    PosteriorKind, Update, HALF_BITS, MINUS_HALF_BITS, MINUS_ONE_BITS,
};
use anofox_bayes_core::errors::BayesResult;
use anofox_bayes_core::formula::Formula;
use anofox_bayes_core::scatter::{n_group_batches, scatter};
use anofox_bayes_core::types::{FitStatus, SampleFrom};
use anofox_bayes_core::config::{Config, Entry, Value};
use anofox_bayes_core::data::{DataView, KeyColumn, NumericColumn};
use anofox_bayes_core::double::Double;
use anofox_bayes_core::errors::{BayesError, Message, Part};

fn double(v: f64) -> Double {
    Double { bits: v.to_bits() }
}

fn number(name: &str, v: f64) -> Entry {
    Entry { name: name.to_string(), value: Value::Number(double(v)) }
}

fn text(name: &str, v: &str) -> Entry {
    Entry { name: name.to_string(), value: Value::Text(v.to_string()) }
}

#[allow(dead_code)]
fn list(name: &str, v: &[&str]) -> Entry {
    Entry {
        name: name.to_string(),
        value: Value::List(v.iter().map(|s| s.to_string()).collect()),
    }
}

#[allow(dead_code)]
fn table(name: &str, entries: Vec<Entry>) -> Entry {
    Entry { name: name.to_string(), value: Value::Table(entries) }
}

fn config(entries: Vec<Entry>) -> Config {
    Config { entries }
}

fn frame(n_rows: usize) -> DataView {
    DataView::new(n_rows)
}

fn numeric(data: &mut DataView, name: &str, values: Vec<f64>) {
    let valid = vec![true; values.len()];
    let column = NumericColumn {
        name: name.to_string(),
        values: values.into_iter().map(double).collect(),
        valid,
    };
    assert!(data.add_numeric(column).is_ok());
}

#[allow(dead_code)]
fn key<S: AsRef<str>>(data: &mut DataView, name: &str, values: &[S]) {
    let column = KeyColumn {
        name: name.to_string(),
        values: values.iter().map(|s| s.as_ref().to_string()).collect(),
        valid: vec![true; values.len()],
    };
    assert!(data.add_key(column).is_ok());
}

fn render(message: &Message) -> String {
    let mut out = String::new();
    for part in &message.parts {
        match part {
            Part::Text(s) => out.push_str(s),
            Part::Number(v) => out.push_str(&format!("{}", f64::from_bits(v.bits))),
            Part::Numbers(v) => {
                let all: Vec<f64> = v.iter().map(|x| f64::from_bits(x.bits)).collect();
                out.push_str(&format!("{:?}", all));
            }
        }
    }
    out
}

fn said(e: &BayesError) -> String {
    render(&e.describe())
}

#[allow(dead_code)]
fn names_slot(e: &BayesError, wanted: &str) -> bool {
    matches!(e, BayesError::Config { slot, .. } if slot == wanted)
}
fn value_of(formula: &Formula, theta: &[f64]) -> f64 {
    match *formula {
        Formula::Coordinate { at } => theta[at],
        Formula::Exp { at } => theta[at].exp(),
        Formula::MinusExp { at } => -theta[at].exp(),
        Formula::Scaled { log_scale, at } => theta[log_scale].exp() * theta[at],
        Formula::ExpSum { base, log_scale, at } => {
            (theta[base] + theta[log_scale].exp() * theta[at]).exp()
        }
        Formula::MinusExpSum { base, log_scale, at } => {
            -(theta[base] + theta[log_scale].exp() * theta[at]).exp()
        }
        Formula::Fixed { value } => f64::from_bits(value.bits),
        Formula::Absent => f64::NAN,
    }
}

fn f(v: Double) -> f64 {
    f64::from_bits(v.bits)
}

fn update(plan: &ConjugatePlan, group: &GroupData) -> Update {
    let ys: Vec<f64> = group.values.iter().map(|v| f(*v)).collect();
    let n = ys.len() as f64;
    let prior = &plan.prior;
    match plan.likelihood {
        Likelihood::Normal => {
            let (mu0, kappa0) = (f(prior.mu0), f(prior.kappa0));
            let kappa_n = kappa0 + n;
            let ybar = ys.iter().sum::<f64>() / n;
            let ss: f64 = ys.iter().map(|y| (y - ybar).powi(2)).sum();
            Update::Normal {
                mu_n: double((kappa0 * mu0 + n * ybar) / kappa_n),
                kappa_n: double(kappa_n),
                alpha_n: double(f(prior.alpha0) + n / 2.0),
                beta_n: double(
                    f(prior.beta0)
                        + ss / 2.0
                        + kappa0 * n * (ybar - mu0).powi(2) / (2.0 * kappa_n),
                ),
                ss: double(ss),
            }
        }
        Likelihood::Poisson => {
            let total = match &group.exposures {
                Some(es) => es.iter().map(|e| f(*e)).sum::<f64>(),
                None => n,
            };
            Update::Poisson {
                a_n: double(f(prior.a0) + ys.iter().sum::<f64>()),
                b_n: double(f(prior.b0) + total),
            }
        }
    }
}

fn compile(data: &DataView, entries: Vec<Entry>) -> BayesResult<CompiledConjugate> {
    let plan = ConjugateAnomaly.compile(&config(entries), data)?;
    let updates: Vec<Update> = plan.groups.iter().map(|g| update(&plan, g)).collect();
    Ok(plan.judge(&updates))
}

fn compiled(data: &DataView, entries: Vec<Entry>) -> CompiledConjugate {
    match compile(data, entries) {
        Ok(m) => m,
        Err(e) => panic!("{}", said(&e)),
    }
}

fn refused(data: &DataView, entries: Vec<Entry>) -> BayesError {
    match compile(data, entries) {
        Err(e) => e,
        Ok(_) => panic!("expected a refusal"),
    }
}

fn reasons(m: &CompiledConjugate) -> Vec<String> {
    m.readiness().reasons.iter().map(render).collect()
}

fn costs(values: Vec<f64>) -> DataView {
    let mut data = frame(values.len());
    numeric(&mut data, "cost", values);
    data
}

fn by_lane(values: Vec<f64>, lanes: &[&str]) -> DataView {
    let mut data = costs(values);
    key(&mut data, "lane", lanes);
    data
}

fn claims(values: Vec<f64>, exposure: Vec<f64>) -> DataView {
    let mut data = frame(values.len());
    numeric(&mut data, "claims", values);
    numeric(&mut data, "shipments", exposure);
    data
}

fn per_lane() -> Vec<Entry> {
    vec![text("value", "cost"), text("group", "lane")]
}

fn poisson() -> Vec<Entry> {
    vec![text("value", "claims"), text("likelihood", "poisson")]
}

fn exposed() -> Vec<Entry> {
    let mut e = poisson();
    e.push(text("exposure", "shipments"));
    e
}

fn with(mut entries: Vec<Entry>, more: Entry) -> Vec<Entry> {
    entries.push(more);
    entries
}

#[test]
fn a_poisson_likelihood_rejects_data_that_is_not_counts() {
    let mut data = frame(3);
    numeric(&mut data, "claims", vec![1.0, 2.5, 3.0]);
    let err = refused(&data, poisson());
    assert!(said(&err).contains("whole counts"), "{}", said(&err));
    assert_eq!(
        said(&err),
        "value: a Poisson likelihood needs non-negative whole counts; \
         row 1 of group '__global__' is 2.5"
    );

    let mut data = frame(3);
    numeric(&mut data, "claims", vec![1.0, -2.0, 3.0]);
    assert!(compile(&data, poisson()).is_err());
}

#[test]
fn each_group_gets_its_own_posterior_named_after_it() {
    let data = by_lane(
        vec![1.0, 1.1, 0.9, 1.05, 5.0, 5.2, 4.8, 5.1],
        &["A", "A", "A", "A", "B", "B", "B", "B"],
    );
    let model = compiled(&data, per_lane());
    assert_eq!(model.n_groups(), 2);
    assert_eq!(model.n_obs, 8);
    let names = &model.params;
    assert_eq!(names.len(), 4);
    assert_eq!((names[0].group_id.as_str(), names[0].name.as_str()), ("A", "mu"));
    assert_eq!((names[1].group_id.as_str(), names[1].name.as_str()), ("A", "sigma"));
    assert_eq!((names[2].group_id.as_str(), names[2].name.as_str()), ("B", "mu"));

    let mu = |g: usize| match model.drawn(g) {
        Some(PosteriorKind::Nig { mu_n, .. }) => f(mu_n),
        other => panic!("{other:?}"),
    };
    assert!((mu(0) - 1.0125).abs() < 0.05, "lane A mu {}", mu(0));
    assert!((mu(1) - 5.025).abs() < 0.1, "lane B mu {}", mu(1));
}

#[test]
fn a_group_with_a_single_observation_refuses_rather_than_inventing_a_variance() {
    let data = by_lane(vec![1.0, 1.1, 0.9, 1.05, 42.0], &["A", "A", "A", "A", "SOLO"]);
    let model = compiled(&data, per_lane());
    assert_eq!(model.readiness().status, FitStatus::InsufficientData);
    assert!(reasons(&model).iter().any(|r| r.contains("SOLO")), "{:?}", reasons(&model));
    assert!(model.drawn(1).is_none(), "SOLO mu must not be a number");
    assert!(model.drawn(0).is_some());
}

#[test]
fn a_group_whose_observations_are_all_identical_refuses() {
    let model = compiled(&costs(vec![7.0; 6]), vec![text("value", "cost")]);
    assert_ne!(model.readiness().status, FitStatus::Converged);
    assert!(reasons(&model)[0].contains("identical"), "{:?}", reasons(&model));
}

#[test]
fn a_group_below_the_min_obs_threshold_is_reported_as_insufficient() {
    let data = by_lane(vec![1.0, 1.1, 5.0, 5.2], &["A", "A", "THIN", "THIN"]);
    let model = compiled(&data, per_lane());
    assert_eq!(model.readiness().status, FitStatus::Converged);

    let model = compiled(&data, with(per_lane(), number("min_obs", 3.0)));
    assert_eq!(model.readiness().status, FitStatus::InsufficientData);
    assert!(model.drawn(0).is_some());
    assert_eq!(
        reasons(&model)[1],
        "group 'THIN': 2 observations is below the min_obs threshold of 3"
    );
}

#[test]
fn the_unready_groups_are_counted_exactly_while_the_verdict_stays_collapsed() {
    let data = by_lane(
        vec![1.0, 1.1, 0.9, 1.05, 2.0, 2.1, 1.9, 2.05, 5.0, 5.2, 7.0, 7.3],
        &["A", "A", "A", "A", "B", "B", "B", "B", "THIN-1", "THIN-1", "THIN-2", "THIN-2"],
    );
    let model = compiled(&data, with(per_lane(), number("min_obs", 3.0)));
    assert_eq!(model.n_groups(), 4);
    assert_eq!(model.n_groups_unready(), 2);
    assert_eq!(model.readiness().status, FitStatus::InsufficientData);

    let model = compiled(&data, with(per_lane(), number("min_obs", 2.0)));
    assert_eq!(model.n_groups_unready(), 0);
    assert_eq!(model.readiness().status, FitStatus::Converged);
}

#[test]
fn a_group_with_no_estimable_posterior_counts_as_unready() {
    let data = by_lane(vec![1.0, 1.1, 0.9, 1.05, 42.0], &["A", "A", "A", "A", "SOLO"]);
    let model = compiled(&data, per_lane());
    assert_eq!(model.n_groups(), 2);
    assert_eq!(model.n_groups_unready(), 1);
}

#[test]
fn an_empty_relation_refuses_rather_than_returning_an_empty_success() {
    let model = compiled(&costs(vec![]), vec![text("value", "cost")]);
    assert_ne!(model.readiness().status, FitStatus::Converged);
}

#[test]
fn the_value_column_is_required_and_must_exist() {
    let data = costs(vec![1.0, 2.0]);
    assert!(compile(&data, vec![]).is_err());
    let err = refused(&data, vec![text("value", "cst")]);
    assert!(matches!(err, BayesError::MissingColumn { .. }));
    assert!(said(&err).contains("cost"), "{}", said(&err));
}

#[test]
fn exposure_is_rejected_for_a_likelihood_that_has_no_exposure_term() {
    let mut data = costs(vec![1.0, 2.0]);
    numeric(&mut data, "n", vec![1.0, 1.0]);
    let err = refused(&data, vec![text("value", "cost"), text("exposure", "n")]);
    assert!(said(&err).contains("only applies to the Poisson"), "{}", said(&err));
}

#[test]
fn an_unknown_config_slot_is_rejected_before_any_arithmetic() {
    let err =
        refused(&costs(vec![1.0, 2.0]), vec![text("value", "cost"), text("grup", "lane")]);
    assert!(said(&err).contains("did you mean 'group'"), "{}", said(&err));
}

#[test]
fn admissible_reference_priors_are_accepted_and_absurd_ones_are_a_config_error() {
    let data = costs(vec![1.0, 2.0, 3.0, 4.0, 5.0, 6.0, 7.0, 8.0]);
    let asks = |alpha0: f64| {
        vec![text("value", "cost"), table("prior", vec![number("alpha0", alpha0)])]
    };
    for alpha0 in [-1.0, -0.5, 0.0, 2.0] {
        assert!(compile(&data, asks(alpha0)).is_ok(), "alpha0 = {alpha0} should be admissible");
    }
    let err = refused(&data, asks(-5.0));
    assert!(names_slot(&err, "prior.alpha0"));
    assert!(said(&err).contains("reference values"), "{}", said(&err));
}

#[test]
fn f7_conjugate_an_unknown_prior_slot_is_rejected_with_its_full_path() {
    let err = refused(
        &costs(vec![1.0, 2.0]),
        vec![text("value", "cost"), table("prior", vec![number("alpha", 1.0)])],
    );
    assert!(names_slot(&err, "prior.alpha"));
}

#[test]
fn the_differentiable_path_skips_unfittable_groups_and_reports_them_as_null() {
    let data = by_lane(
        vec![1.0, 1.2, 0.9, 1.1, 5.0, 42.0],
        &["A", "A", "A", "A", "SOLO", "OTHER"],
    );
    let model = compiled(&data, per_lane());
    assert_eq!(model.n_groups(), 3);
    assert_eq!(model.dim, 2);
    let theta = [1.05, -2.0];
    let out: Vec<f64> = model.constrain().iter().map(|g| value_of(g, &theta)).collect();
    assert_eq!(out.len(), 6);
    assert!(out[0].is_finite() && out[1] > 0.0, "lane A: {out:?}");
    assert!(out[2..].iter().all(|v| v.is_nan()), "{out:?}");
}

#[test]
fn the_coordinates_of_the_groups_that_have_any_follow_each_other() {
    let data = by_lane(
        vec![42.0, 1.0, 1.2, 5.0, 7.0, 7.5, 3.0, 3.5],
        &["SOLO", "A", "A", "ALONE", "B", "B", "C", "C"],
    );
    let model = compiled(&data, per_lane());
    assert_eq!(model.theta_offsets, vec![None, Some(0), None, Some(2), Some(4)]);
    assert_eq!(model.dim, 6);
    let theta = [1.0, 0.1, 2.0, 0.2, 3.0, 0.3];
    let out: Vec<f64> = model.constrain().iter().map(|g| value_of(g, &theta)).collect();
    assert!(out[0].is_nan() && out[1].is_nan() && out[4].is_nan() && out[5].is_nan());
    assert_eq!(out[2..4], [1.0, 0.1f64.exp()]);
    assert_eq!(out[6..8], [2.0, 0.2f64.exp()]);
    assert_eq!(out[8..10], [3.0, 0.3f64.exp()]);
}

/// A number that a group's own key fixes, for one draw of one of its parameters.
fn keyed(seed: u64, key: &str, draw: usize, k: usize) -> f64 {
    let mut h: u64 = 0xcbf2_9ce4_8422_2325 ^ seed;
    for b in key.bytes() {
        h = (h ^ b as u64).wrapping_mul(0x0000_0100_0000_01b3);
    }
    h = (h ^ draw as u64).wrapping_mul(0x0000_0100_0000_01b3);
    h = (h ^ k as u64).wrapping_mul(0x0000_0100_0000_01b3);
    (h >> 11) as f64 / 9007199254740992.0
}

fn chain_bits(model: &CompiledConjugate, n_draws: usize, seed: u64) -> Vec<(String, Vec<u64>)> {
    let n_params = model.params.len();
    let mut out = vec![0.0f64; n_draws * n_params];
    let slabs = match model.chain_plan(n_draws, SampleFrom::Posterior, out.len()) {
        Ok(ChainPlan::Posterior(slabs)) => slabs,
        other => panic!("{:?}", other.is_ok()),
    };
    for slab in slabs {
        let mut scratch = vec![0.0f64; slab.here * slab.per_group];
        for i in 0..slab.here {
            let g = slab.start + i;
            let key = &model.params[g * slab.width].group_id;
            for draw in 0..n_draws {
                for k in 0..slab.width {
                    scratch[i * slab.per_group + draw * slab.width + k] = match model.drawn(g) {
                        Some(_) => keyed(seed, key, draw, k),
                        None => f64::NAN,
                    };
                }
            }
        }
        scatter(&mut out, n_params, n_draws, &scratch, slab);
    }
    model
        .params
        .iter()
        .enumerate()
        .map(|(p, name)| {
            (
                format!("{}/{}", name.group_id, name.name),
                (0..n_draws).map(|d| out[d * n_params + p].to_bits()).collect(),
            )
        })
        .collect()
}

fn lanes_in_order(order: &[usize]) -> DataView {
    let names = ["HAM-ROT", "BRE-ANT", "DUS-MIL", "GEN-VAL"];
    let mut values = Vec::new();
    let mut lanes = Vec::new();
    for &lane in order {
        for i in 0..30 {
            values.push(2.0 + lane as f64 + ((i % 5) as f64 - 2.0) * 0.03);
            lanes.push(names[lane]);
        }
    }
    by_lane(values, &lanes)
}

#[test]
fn a_groups_draws_do_not_depend_on_the_order_the_groups_arrived_in() {
    let a = chain_bits(&compiled(&lanes_in_order(&[0, 1, 2, 3]), per_lane()), 200, 5);
    let b = chain_bits(&compiled(&lanes_in_order(&[2, 0, 3, 1]), per_lane()), 200, 5);
    assert_eq!(a.len(), 8);
    assert_eq!(b.len(), 8);
    for (key, draws) in &a {
        let other = b.iter().find(|(k, _)| k == key).unwrap();
        assert_eq!(draws, &other.1, "{key} changed with the relation order");
    }
}

#[test]
fn the_draws_are_byte_identical_whatever_the_thread_count() {
    const GROUPS: usize = 1_200;
    const DRAWS: usize = 500;
    assert!(
        n_group_batches(DRAWS * 2, GROUPS) > 1,
        "the fixture must cross a batch boundary or the scatter is untested"
    );
    let mut values = Vec::new();
    let mut names: Vec<String> = Vec::new();
    for g in 0..GROUPS {
        for i in 0..8 {
            values.push(10.0 + g as f64 * 0.01 + ((i % 5) as f64 - 2.0) * 0.5);
            names.push(format!("LANE-{g:05}"));
        }
    }
    let mut data = costs(values);
    key(&mut data, "lane", &names);
    let model = compiled(&data, per_lane());
    assert_eq!(model.n_groups(), GROUPS);
    let run = |threads: usize| {
        rayon::ThreadPoolBuilder::new()
            .num_threads(threads)
            .build()
            .unwrap()
            .install(|| chain_bits(&model, DRAWS, 9))
    };
    let one = run(1);
    assert_eq!(one, run(8));
    assert_eq!(one, run(31));
    assert_eq!(one[2 * 700 + 1].1[123], keyed(9, "LANE-00700", 123, 1).to_bits());
}

#[test]
fn a_group_gets_the_same_draws_whether_it_is_fitted_alone_or_in_company() {
    let all = chain_bits(&compiled(&lanes_in_order(&[0, 1, 2, 3]), per_lane()), 300, 13);
    for lane in 0..4 {
        let solo = chain_bits(&compiled(&lanes_in_order(&[lane]), per_lane()), 300, 13);
        assert_eq!(solo.len(), 2, "one lane, two parameters");
        for (key, draws) in &solo {
            let joint = all.iter().find(|(k, _)| k == key).unwrap();
            assert_eq!(draws, &joint.1, "{key} moved when fitted in company");
        }
    }
}

#[test]
fn a_count_observed_over_zero_exposure_is_rejected_as_impossible() {
    let err = refused(
        &claims(vec![2.0, 3.0, 1.0, 5.0], vec![100.0, 120.0, 90.0, 0.0]),
        exposed(),
    );
    let msg = said(&err);
    assert!(
        msg.contains("exposure") && msg.contains('3'),
        "the message must name the slot and the offending row: {msg}"
    );
    assert_eq!(
        msg,
        "exposure: row 3 of group '__global__' has 5 events over zero exposure, which no rate \
         can produce. Drop the row, or supply the exposure it was observed over"
    );
}

#[test]
fn a_zero_count_over_zero_exposure_is_consistent_and_accepted() {
    let data = claims(vec![2.0, 3.0, 1.0, 0.0], vec![100.0, 120.0, 90.0, 0.0]);
    assert!(compile(&data, exposed()).is_ok());
}

#[test]
fn zero_exposure_rows_do_not_count_towards_the_readiness_threshold() {
    let mut data = claims(
        vec![0.0, 0.0, 0.0, 0.0, 2.0, 3.0, 4.0],
        vec![0.0, 0.0, 0.0, 0.0, 50.0, 60.0, 55.0],
    );
    key(
        &mut data,
        "lane",
        &["EMPTY", "EMPTY", "EMPTY", "EMPTY", "REAL", "REAL", "REAL"],
    );
    let mut entries = exposed();
    entries.push(text("group", "lane"));
    entries.push(table("prior", vec![number("a0", 1.0), number("b0", 1.0)]));
    entries.push(number("min_obs", 3.0));
    let model = compiled(&data, entries);
    assert_ne!(
        model.readiness().status,
        FitStatus::Converged,
        "a lane with no informative rows must not report as converged"
    );
    assert!(reasons(&model).iter().any(|r| r.contains("EMPTY")), "{:?}", reasons(&model));
    assert_eq!(model.n_groups_unready(), 1, "exactly the EMPTY lane is unready");
}

#[test]
fn a_negative_exposure_is_refused_with_its_row() {
    let err = refused(&claims(vec![2.0, 3.0], vec![100.0, -1.0]), exposed());
    assert_eq!(
        said(&err),
        "exposure: must be non-negative; row 1 of group '__global__' is -1"
    );
}

#[test]
fn no_exposure_at_all_leaves_no_rate_to_estimate() {
    let model = compiled(&claims(vec![0.0, 0.0], vec![0.0, 0.0]), exposed());
    assert_eq!(
        reasons(&model),
        vec!["group '__global__': total exposure is zero, so no rate is identifiable"]
    );
    assert!(model.drawn(0).is_none());
    assert_eq!(model.dim, 0);
}

fn informative(more: Option<Entry>) -> Vec<Entry> {
    let mut entries = vec![
        text("value", "cost"),
        table(
            "prior",
            vec![
                number("mu0", 10.0),
                number("kappa0", 4.0),
                number("alpha0", 3.0),
                number("beta0", 2.0),
            ],
        ),
    ];
    entries.extend(more);
    entries
}

#[test]
fn prior_draws_do_not_depend_on_the_data() {
    let cheap =
        compiled(&costs(vec![1.0, 1.1, 0.9, 1.05, 1.0]), informative(None));
    let dear =
        compiled(&costs(vec![900.0, 910.0, 890.0, 905.0, 895.0]), informative(None));
    assert_eq!(cheap.prior_kind, dear.prior_kind, "the prior moved with the data");
    assert_eq!(cheap.prior_to_draw(2).ok(), dear.prior_to_draw(2).ok());
    assert_ne!(cheap.drawn(0), dear.drawn(0));
}

#[test]
fn prior_draws_match_the_specified_prior_moments() {
    let model = compiled(
        &costs(vec![1.0, 1.1, 0.9, 1.05, 1.0]),
        informative(Some(text("sample_from", "prior"))),
    );
    match model.prior_to_draw(2) {
        Ok(PosteriorKind::Nig { mu_n, alpha_n, beta_n, .. }) => {
            assert!((f(mu_n) - 10.0).abs() < 0.05, "prior mean of mu: {}", f(mu_n));
            let var_mean = f(beta_n) / (f(alpha_n) - 1.0);
            assert!((var_mean - 1.0).abs() < 0.05, "prior mean of sigma^2: {var_mean}");
        }
        _ => panic!("a proper prior is there to be drawn from"),
    }
    match model.chain_plan(3, SampleFrom::Prior, 6) {
        Ok(ChainPlan::Prior(kind)) => assert_eq!(Some(kind), model.prior_kind),
        _ => panic!("a proper prior is there to be drawn from"),
    }
}

#[test]
fn a_prior_predictive_check_is_refused_under_an_improper_default_prior() {
    let data = costs(vec![1.0, 1.1, 0.9, 1.05, 1.0]);
    let msg =
        said(&refused(&data, vec![text("value", "cost"), text("sample_from", "prior")]));
    assert!(
        msg.contains("improper") && msg.contains("prior"),
        "the refusal must say why: {msg}"
    );
    let model = compiled(&data, vec![text("value", "cost")]);
    match model.prior_to_draw(2) {
        Err(e) => assert!(names_slot(&e, "sample_from")),
        Ok(_) => panic!("an improper prior was drawn from"),
    }
}

#[test]
fn a_poisson_prior_predictive_matches_its_gamma_prior() {
    let mut data = frame(4);
    numeric(&mut data, "claims", vec![2.0, 3.0, 1.0, 4.0]);
    numeric(&mut data, "ships", vec![100.0, 120.0, 90.0, 110.0]);
    let model = compiled(
        &data,
        vec![
            text("value", "claims"),
            text("likelihood", "poisson"),
            text("exposure", "ships"),
            table("prior", vec![number("a0", 6.0), number("b0", 3.0)]),
            text("sample_from", "prior"),
        ],
    );
    match model.prior_to_draw(1) {
        Ok(PosteriorKind::Gamma { a_n, b_n }) => {
            let m = f(a_n) / f(b_n);
            let v = f(a_n) / (f(b_n) * f(b_n));
            assert!((m - 2.0).abs() < 0.02, "prior mean: {m}");
            assert!((v - 2.0 / 3.0).abs() < 0.02, "prior variance: {v}");
        }
        _ => panic!("a proper prior is there to be drawn from"),
    }
}

#[test]
fn a_gamma_update_computed_here_is_the_posterior_that_is_drawn() {
    let counts = vec![3.0, 7.0, 5.0, 4.0, 6.0, 8.0, 2.0, 5.0];
    let exposure = vec![10.0, 20.0, 15.0, 12.0, 18.0, 25.0, 8.0, 14.0];
    let total_y: f64 = counts.iter().sum();
    let total_e: f64 = exposure.iter().sum();
    let mut data = frame(8);
    numeric(&mut data, "claims", counts);
    numeric(&mut data, "consignments", exposure);
    let model = compiled(
        &data,
        vec![
            text("value", "claims"),
            text("likelihood", "poisson"),
            text("exposure", "consignments"),
        ],
    );
    let (a_n, b_n) = match model.drawn(0) {
        Some(PosteriorKind::Gamma { a_n, b_n }) => (f(a_n), f(b_n)),
        other => panic!("{other:?}"),
    };
    let expected_mean = (0.5 + total_y) / total_e;
    let expected_sd = ((0.5 + total_y).sqrt()) / total_e;
    assert!((a_n / b_n - expected_mean).abs() < 0.01 * expected_mean);
    assert!((a_n.sqrt() / b_n - expected_sd).abs() < 0.02 * expected_sd);
}

#[test]
fn a_gamma_update_computed_here_without_exposure_is_drawn_around_the_mean_count() {
    let counts = vec![4.0, 6.0, 5.0, 5.0, 4.0, 6.0];
    let mut data = frame(6);
    numeric(&mut data, "claims", counts.clone());
    let model = compiled(&data, poisson());
    let expected = (0.5 + counts.iter().sum::<f64>()) / counts.len() as f64;
    match model.drawn(0) {
        Some(PosteriorKind::Gamma { a_n, b_n }) => {
            assert!((f(a_n) / f(b_n) - expected).abs() < 0.01 * expected)
        }
        other => panic!("{other:?}"),
    }
}

#[test]
fn a_chain_buffer_of_the_wrong_size_is_refused_and_an_empty_chain_is_empty() {
    let data = by_lane(vec![1.0, 1.1, 5.0, 5.2], &["A", "A", "B", "B"]);
    let model = compiled(&data, per_lane());
    match model.chain_plan(10, SampleFrom::Posterior, 39) {
        Err(e) => assert_eq!(
            said(&e),
            "dimension mismatch: expected 40 slots for 10 draws x 4 parameters, got 39"
        ),
        Ok(_) => panic!("a short buffer passed"),
    }
    assert!(matches!(model.chain_plan(0, SampleFrom::Prior, 0), Ok(ChainPlan::Empty)));
    assert!(model.chain_plan(1, SampleFrom::Prior, 4).is_err());
    assert!(model.check_draw_buffer(4).is_ok());
    assert!(model.check_draw_buffer(3).is_err());
    assert!(model.check_gradient_buffers(4, 4).is_ok());
    assert!(model.check_gradient_buffers(4, 5).is_err());
}

#[test]
fn the_reference_priors_are_the_numbers_they_stand_for() {
    assert_eq!(f64::from_bits(MINUS_HALF_BITS), -0.5);
    assert_eq!(f64::from_bits(MINUS_ONE_BITS), -1.0);
    assert_eq!(f64::from_bits(HALF_BITS), 0.5);
}

#[test]
fn identical_observations_are_refused_whatever_rounding_makes_of_them() {
    let plan = match ConjugateAnomaly.compile(
        &config(vec![text("value", "cost")]),
        &costs(vec![0.1; 3]),
    ) {
        Ok(p) => p,
        Err(e) => panic!("{}", said(&e)),
    };
    let rounded = update(&plan, &plan.groups[0]);
    if let Update::Normal { ss, .. } = rounded {
        assert!(f(ss) > 0.0, "the sum of squares was expected to be off zero");
    }
    let model = plan.judge(&vec![rounded]);
    assert_ne!(model.readiness().status, FitStatus::Converged);
    assert!(reasons(&model)[0].contains("identical"), "{:?}", reasons(&model));
    assert!(model.drawn(0).is_none());
    assert_eq!(model.dim, 0);
}

#[test]
fn identical_observations_are_fitted_where_the_prior_says_something() {
    let model = compiled(&costs(vec![0.1; 3]), informative(None));
    assert!(model.drawn(0).is_some());
}

#[test]
fn the_fingerprint_tracks_the_data_the_model_reads() {
    let make = |values: Vec<f64>| {
        match ConjugateAnomaly.reading(&config(vec![text("value", "cost")]), &costs(values)) {
            Ok(r) => r,
            Err(e) => panic!("{}", said(&e)),
        }
    };
    let (a, b, c) =
        (make(vec![1.0, 2.0, 3.0]), make(vec![1.0, 2.0, 3.0]), make(vec![1.0, 2.0, 4.0]));
    assert_eq!(a.numeric, vec!["cost".to_string()]);
    assert_eq!(a.rows, vec![0, 1, 2]);
    assert!(a.keys.is_empty() && a.labels.is_empty());
    assert_eq!((&a.numbers, &a.rows), (&b.numbers, &b.rows));
    assert_ne!(a.numbers, c.numbers);
}

#[test]
fn an_exposure_and_a_group_are_read_as_well() {
    let mut data = claims(vec![2.0, 3.0, 1.0, 4.0], vec![100.0, 120.0, 90.0, 110.0]);
    key(&mut data, "lane", &["A", "B", "A", "B"]);
    data.numeric[1].valid[2] = false;
    let mut entries = exposed();
    entries.push(text("group", "lane"));
    let r = match ConjugateAnomaly.reading(&config(entries), &data) {
        Ok(r) => r,
        Err(e) => panic!("{}", said(&e)),
    };
    assert_eq!(r.numeric, vec!["claims".to_string(), "shipments".to_string()]);
    assert_eq!(r.keys, vec!["lane".to_string()]);
    assert_eq!(r.rows, vec![0, 1, 3]);
    let numbers: Vec<Vec<f64>> =
        r.numbers.iter().map(|c| c.iter().map(|v| f(*v)).collect()).collect();
    assert_eq!(numbers, vec![vec![2.0, 3.0, 4.0], vec![100.0, 120.0, 110.0]]);
    assert_eq!(r.labels, vec![vec!["A".to_string(), "B".to_string(), "B".to_string()]]);
}
