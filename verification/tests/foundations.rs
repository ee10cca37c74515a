use anofox_bayes_core::catalog::common::ONE_BITS;
use anofox_bayes_core::catalog::{lookup, Family};
use anofox_bayes_core::readiness::Readiness;
use anofox_bayes_core::scatter::{group_batch, n_group_batches, scatter, slabs, Slab};
use anofox_bayes_core::text::{contains, decimal, edit_distance, join, reads_as, suggest};
use anofox_bayes_core::types::{validate_group_key, FitStatus};
use anofox_bayes_core::config::{Config, Entry, Value};
use anofox_bayes_core::data::{DataView, KeyColumn, NumericColumn};
use anofox_bayes_core::double::Double;
use anofox_bayes_core::errors::{BayesError, Message, Part};

fn double(v: f64) -> Double {
    Double { bits: v.to_bits() }
}

fn number(name: &str, v: f64) -> Entry {
    Entry { name: name.to_string(), value: Value::Number(double(v)) }
}

fn text(name: &str, v: &str) -> Entry {
    Entry { name: name.to_string(), value: Value::Text(v.to_string()) }
}

#[allow(dead_code)]
fn list(name: &str, v: &[&str]) -> Entry {
    Entry {
        name: name.to_string(),
        value: Value::List(v.iter().map(|s| s.to_string()).collect()),
    }
}

#[allow(dead_code)]
fn table(name: &str, entries: Vec<Entry>) -> Entry {
    Entry { name: name.to_string(), value: Value::Table(entries) }
}

fn config(entries: Vec<Entry>) -> Config {
    Config { entries }
}

fn frame(n_rows: usize) -> DataView {
    DataView::new(n_rows)
}

fn numeric(data: &mut DataView, name: &str, values: Vec<f64>) {
    let valid = vec![true; values.len()];
    let column = NumericColumn {
        name: name.to_string(),
        values: values.into_iter().map(double).collect(),
        valid,
    };
    assert!(data.add_numeric(column).is_ok());
}

#[allow(dead_code)]
fn key<S: AsRef<str>>(data: &mut DataView, name: &str, values: &[S]) {
    let column = KeyColumn {
        name: name.to_string(),
        values: values.iter().map(|s| s.as_ref().to_string()).collect(),
        valid: vec![true; values.len()],
    };
    assert!(data.add_key(column).is_ok());
}

fn render(message: &Message) -> String {
    let mut out = String::new();
    for part in &message.parts {
        match part {
            Part::Text(s) => out.push_str(s),
            Part::Number(v) => out.push_str(&format!("{}", f64::from_bits(v.bits))),
            Part::Numbers(v) => {
                let all: Vec<f64> = v.iter().map(|x| f64::from_bits(x.bits)).collect();
                out.push_str(&format!("{:?}", all));
            }
        }
    }
    out
}

fn said(e: &BayesError) -> String {
    render(&e.describe())
}

#[allow(dead_code)]
fn names_slot(e: &BayesError, wanted: &str) -> bool {
    matches!(e, BayesError::Config { slot, .. } if slot == wanted)
}

fn interesting() -> Vec<f64> {
    vec![
        0.0,
        -0.0,
        5e-324,
        -5e-324,
        2.2250738585072014e-308,
        0.1,
        -0.1,
        0.5,
        1.0,
        -1.0,
        1.5,
        2.0,
        3.0,
        1e15,
        4503599627370495.5,
        9007199254740992.0,
        9007199254740993.0,
        1e300,
        f64::MAX,
        f64::MIN,
        f64::INFINITY,
        f64::NEG_INFINITY,
        f64::NAN,
    ]
}

#[test]
fn doubles_are_compared_as_the_numbers_they_stand_for() {
    for a in interesting() {
        let x = double(a);
        assert_eq!(x.is_nan(), a.is_nan());
        assert_eq!(x.is_finite(), a.is_finite());
        assert_eq!(x.is_positive(), a > 0.0);
        assert_eq!(x.is_below_zero(), a < 0.0);
        assert_eq!(x.is_finite_positive(), a.is_finite() && a > 0.0);
        assert_eq!(x.is_whole(), a.is_finite() && a.fract() == 0.0);
        assert_eq!(x.is_whole_count(), !(a < 0.0 || a.fract() != 0.0));
        if !a.is_nan() {
            assert_eq!(x.abs().bits, a.abs().to_bits());
        }
        for b in interesting() {
            let y = double(b);
            assert_eq!(x.less_than(y), a < b, "{a} < {b}");
            assert_eq!(x.at_most(y), a <= b, "{a} <= {b}");
            assert_eq!(x.equals(y), a == b, "{a} == {b}");
        }
    }
}

#[test]
fn a_count_is_read_exactly_up_to_two_to_the_fifty_third() {
    assert_eq!(double(0.0).to_count(), Some(0));
    assert_eq!(double(7.0).to_count(), Some(7));
    assert_eq!(double(9007199254740991.0).to_count(), Some(9007199254740991));
    assert_eq!(double(9007199254740992.0).to_count(), None);
    assert_eq!(double(2.5).to_count(), None);
    assert_eq!(double(-1.0).to_count(), None);
    assert_eq!(double(f64::NAN).to_count(), None);
    assert_eq!(Double::infinity().bits, f64::INFINITY.to_bits());
    assert!(f64::from_bits(Double::not_a_number().bits).is_nan());
    assert_eq!(f64::from_bits(ONE_BITS), 1.0);
}

#[test]
fn numerals_and_lists_are_written_out() {
    for n in [0usize, 7, 10, 42, 100, 65535, usize::MAX] {
        assert_eq!(decimal(n), format!("{n}"));
    }
    let parts: Vec<String> = ["a", "b", "c"].iter().map(|s| s.to_string()).collect();
    assert_eq!(join(&parts, ", "), "a, b, c");
    assert_eq!(join(&[], ", "), "");
}

#[test]
fn a_text_holds_a_pattern_exactly_where_it_occurs() {
    assert!(contains("every observation is censored here", "observation is censored"));
    assert!(contains("abc", ""));
    assert!(contains("", ""));
    assert!(contains("abc", "abc"));
    assert!(contains("abab", "ab"));
    assert!(contains("aab", "ab"));
    assert!(!contains("abc", "abd"));
    assert!(!contains("ab", "abc"));
}

#[test]
fn a_misspelling_is_matched_to_the_nearest_known_word() {
    assert_eq!(edit_distance("kitten", "sitting"), 3);
    assert_eq!(edit_distance("", "abc"), 3);
    assert_eq!(suggest("grup", &["value", "group", "prior"]), Some("group"));
    assert_eq!(suggest("xyzzy", &["value", "group", "prior"]), None);
    assert!(reads_as("LaPlAcE", "laplace"));
    assert!(!reads_as("laplac", "laplace"));
}

#[test]
fn the_worst_verdict_wins_and_no_reason_is_lost() {
    let all = vec![
        Readiness::ready(),
        Readiness::insufficient(Message::of("thin".to_string())),
        Readiness::failed(Message::of("lost".to_string())),
        Readiness::degenerate(Message::of("flat".to_string())),
    ];
    let worst = Readiness::worst(&all);
    assert_eq!(worst.status, FitStatus::Failed);
    let reasons: Vec<String> = worst.reasons.iter().map(render).collect();
    assert_eq!(reasons, vec!["thin", "lost", "flat"]);
    assert_eq!(Readiness::count_unready(&all), 3);
    assert_eq!(Readiness::worst(&vec![Readiness::ready()]).status, FitStatus::Converged);
    let named = all[1].naming("group 'A': ");
    assert_eq!(render(&named.reasons[0]), "group 'A': thin");
    let ranks: Vec<i32> = [
        FitStatus::Converged,
        FitStatus::Degenerate,
        FitStatus::InsufficientData,
        FitStatus::Failed,
    ]
    .iter()
    .map(|s| s.rank())
    .collect();
    assert!(ranks.windows(2).all(|w| w[0] < w[1]));
    assert!(FitStatus::Converged.is_actionable());
    assert!(!FitStatus::Degenerate.is_actionable());
}

#[test]
fn rows_with_an_absent_entry_are_left_out_and_groups_come_in_order_of_appearance() {
    let mut data = frame(6);
    numeric(&mut data, "y", vec![1.0, 2.0, 3.0, 4.0, 5.0, 6.0]);
    key(&mut data, "g", &["B", "A", "B", "C", "A", "B"]);
    data.numeric[0].valid[2] = false;
    data.keys[0].valid[3] = false;
    let rows = match data.usable_rows(&vec!["y".to_string()], &vec!["g".to_string()]) {
        Ok(r) => r,
        Err(e) => panic!("{}", said(&e)),
    };
    assert_eq!(rows, vec![0, 1, 4, 5]);
    let groups = match data.group_rows(&Some("g".to_string()), &rows) {
        Ok(g) => g,
        Err(e) => panic!("{}", said(&e)),
    };
    let seen: Vec<(String, Vec<usize>)> =
        groups.into_iter().map(|g| (g.key, g.rows)).collect();
    assert_eq!(
        seen,
        vec![("B".to_string(), vec![0, 5]), ("A".to_string(), vec![1, 4])]
    );
    match data.usable_rows(&vec!["z".to_string()], &vec![]) {
        Err(e) => assert_eq!(said(&e), "column 'z' not found; available: y"),
        Ok(_) => panic!("a column that is not there was read"),
    }
    let short = NumericColumn {
        name: "short".to_string(),
        values: vec![double(1.0)],
        valid: vec![true],
    };
    assert!(data.add_numeric(short).is_err());
}

#[test]
fn the_reserved_key_is_refused_as_a_group() {
    assert!(validate_group_key("HAM-ROT").is_ok());
    assert!(validate_group_key("__global__").is_err());
}

#[test]
fn options_are_read_by_name_and_refused_by_path() {
    let cfg = config(vec![
        text("y", "units"),
        list("x", &["a", "b"]),
        number("min", 3.0),
        number("scale", -1.0),
        table("prior", vec![table("tau", vec![number("scale", 2.0)])]),
    ]);
    let root = cfg.root();
    assert!(root.has("y") && !root.has("z"));
    assert_eq!(root.require_str("y").ok(), Some("units".to_string()));
    assert_eq!(root.opt_str("z").ok(), Some(None));
    assert_eq!(root.str_list("x").ok(), Some(vec!["a".to_string(), "b".to_string()]));
    assert_eq!(root.str_list("y").ok(), Some(vec!["units".to_string()]));
    assert_eq!(root.usize_in("min", 1, 1, 10).ok(), Some(3));
    assert_eq!(root.usize_in("max", 7, 1, 10).ok(), Some(7));
    let fault = |r: Result<Double, BayesError>| match r {
        Err(e) => said(&e),
        Ok(_) => panic!("expected a refusal"),
    };
    assert_eq!(fault(root.positive_f64_or("scale", double(1.0))), "scale: must be > 0, got -1");
    assert_eq!(
        fault(root.non_negative_f64_or("scale", double(1.0))),
        "scale: must be >= 0, got -1"
    );
    assert_eq!(fault(root.f64_or("y", double(1.0))), "y: must be a number");
    match root.usize_in("min", 1, 4, 10) {
        Err(e) => assert_eq!(said(&e), "min: must be a whole number between 4 and 10, got 3"),
        Ok(_) => panic!("3 is below 4"),
    }
    match root.require_str("z") {
        Err(e) => assert_eq!(said(&e), "z: is required"),
        Ok(_) => panic!("z is not there"),
    }
    let prior = match root.nested("prior") {
        Ok(p) => p,
        Err(e) => panic!("{}", said(&e)),
    };
    assert_eq!(prior.scale_or("tau", double(1.0)).ok(), Some(double(2.0)));
    match prior.reject_unknown(&["sigma", "phi"]) {
        Err(e) => assert_eq!(
            said(&e),
            "prior.tau: unknown option; expected one of sigma, phi"
        ),
        Ok(()) => panic!("tau is not known"),
    }
    match root.one_of("y", &["normal", "poisson"], "normal") {
        Err(e) => assert_eq!(said(&e), "y: expected one of normal, poisson, got 'units'"),
        Ok(_) => panic!("units is no choice"),
    }
}

#[test]
fn a_slab_is_put_in_its_columns_and_leaves_the_others_alone() {
    // Three groups of two parameters, four draws; the slab holds groups 1 and 2.
    let slab = Slab { start: 1, here: 2, width: 2, per_group: 8 };
    let scratch: Vec<u32> = (0..16).map(|i| 100 + i).collect();
    let mut out: Vec<u32> = (0..24).collect();
    scatter(&mut out, 6, 4, &scratch, slab);
    for draw in 0..4usize {
        assert_eq!(out[draw * 6], draw as u32 * 6);
        assert_eq!(out[draw * 6 + 1], draw as u32 * 6 + 1);
        for g in 0..2usize {
            for k in 0..2usize {
                assert_eq!(
                    out[draw * 6 + (1 + g) * 2 + k],
                    100 + (g * 8 + draw * 2 + k) as u32
                );
            }
        }
    }
}

#[test]
fn slabs_take_every_group_once_whatever_the_batch() {
    for n_groups in [0usize, 1, 5, 12] {
        for batch in [1usize, 2, 5, 7, 20] {
            let all = slabs(n_groups, batch, 2, 8);
            let mut seen = Vec::new();
            for s in &all {
                assert!(s.here >= 1 && s.here <= batch);
                seen.extend(s.start..s.start + s.here);
            }
            assert_eq!(seen, (0..n_groups).collect::<Vec<usize>>());
            assert_eq!(all.len(), n_groups.div_ceil(batch));
        }
    }
    assert_eq!(group_batch(1000, 1200), 524);
    assert_eq!(group_batch(10_000_000, 1200), 1);
    assert_eq!(group_batch(1, 3), 3);
    assert_eq!(group_batch(1, 0), 1);
    assert_eq!(n_group_batches(1000, 1200), 3);
}

#[test]
fn every_family_is_found_under_its_own_name_alone() {
    let all = [
        ("hier_negbin", Family::HierNegbin, 1),
        ("censored_aft", Family::CensoredAft, 2),
        ("pooled_gaussian", Family::PooledGaussian, 3),
        ("payment_delay", Family::PaymentDelay, 4),
        ("payer_alive", Family::PayerAlive, 5),
        ("hier_elasticity", Family::HierElasticity, 6),
        ("conjugate_anomaly", Family::ConjugateAnomaly, 7),
        ("varying_variance_gaussian", Family::VaryingVarianceGaussian, 8),
    ];
    for (id, family, code) in all {
        assert_eq!(lookup(id), Some(family));
        assert_eq!(family.id(), id);
        assert_eq!(family.code().number(), code);
    }
    assert_eq!(lookup("hier_negbinomial"), None);
    assert_eq!(lookup(""), None);
}

#[test]
fn errors_say_what_they_are() {
    assert_eq!(
        said(&BayesError::InsufficientData { rows: 3, params: 5 }),
        "3 usable rows for 5 parameters"
    );
    assert_eq!(said(&BayesError::SingularMatrix), "the design is rank deficient");
    assert_eq!(
        said(&BayesError::config_number("a", "got ".to_string(), double(0.25), "!")),
        "a: got 0.25!"
    );
    let listed = Message::with_numbers("at ", vec![double(1.0), double(-2.5)], ".");
    assert_eq!(render(&listed), "at [1.0, -2.5].");
}

#[test]
fn a_number_that_is_written_must_be_finite() {
    for v in [f64::INFINITY, f64::NEG_INFINITY, f64::NAN] {
        let cfg = config(vec![number("a", v)]);
        let root = cfg.root();
        for r in [
            root.f64_or("a", double(1.0)),
            root.positive_f64_or("a", double(1.0)),
            root.non_negative_f64_or("a", double(1.0)),
        ] {
            match r {
                Err(BayesError::Config { slot, .. }) => assert_eq!(slot, "a"),
                _ => panic!("{v} was accepted"),
            }
        }
    }
    let cfg = config(Vec::new());
    assert_eq!(
        cfg.root().positive_f64_or("a", Double::infinity()).unwrap(),
        Double::infinity()
    );
}

#[test]
fn a_floored_number_is_never_below_the_least_normal_one() {
    for v in [0.0, -3.0, f64::NAN, f64::MIN_POSITIVE / 4.0, f64::MIN_POSITIVE] {
        assert_eq!(double(v).floored(), double(f64::MIN_POSITIVE));
    }
    for v in [f64::MIN_POSITIVE * 2.0, 1.5, f64::INFINITY] {
        assert_eq!(double(v).floored(), double(v));
    }
}
