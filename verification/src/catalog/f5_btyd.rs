//! Buy till you die: whether a customer is still there, from how often, how recently and
//! for how long they have bought.
//!
//! The four population parameters `r`, `alpha`, `a`, `b` are fitted at a mode, and most
//! of what the family decides is whether the mode that a search came back with is one.
use crate::catalog::common::{are_finite_until, is_in_box};
use crate::config::{Config, Entry, Scope, Section};
use crate::data::{DataView, NumericColumn};
use crate::double::Double;
use crate::draws::{push_global, ParamId, ParamName};
use crate::errors::{BayesError, BayesResult, Fault, Message};
use crate::formula::{absent, Formula, Sign};
use crate::readiness::{Readiness, Verdict};
use crate::reading::{read_columns, Entries, Reading};
use crate::text::{decimal, push_text};
use crate::types::{EngineKind, FamilyCode, FitStatus};
use vstd::prelude::*;

verus! {

/// The family of churn models.
#[derive(Debug)]
pub struct PayerAlive;

/// The probability that a customer is still there, as an SQL expression over a draw of
/// the parameters and the customer's statistics.
pub const P_ALIVE_SQL: &'static str =
    "1.0 / (1.0 + CASE WHEN frequency = 0 THEN 0.0 ELSE (a / (b + frequency - 1)) * pow((alpha + age) / (alpha + recency), r + frequency) END)";

pub const SLOTS: [&'static str; 10] = [
    "frequency",
    "recency",
    "age",
    "prior",
    "min_customers",
    "draws",
    "chains",
    "max_draw_megabytes",
    "seed",
    "engine",
];

pub const PARAMS: [&'static str; 4] = ["r", "alpha", "a", "b"];

/// The bits of 25: a mode further out than this, on the log scale, has run away.
pub const LOG_BOUNDARY_BITS: u64 = 0x4039_0000_0000_0000;

/// The bits of 3: a marginal spread wider than this, on the log scale, is a flat ridge.
pub const MAX_LOG_SD_BITS: u64 = 0x4008_0000_0000_0000;

pub const ID: &'static str = "payer_alive";

pub const DESCRIPTION: &'static str =
    "BG/NBD buy-till-you-die model over per-customer (frequency, recency, age) \
     statistics, whose closed-form P(alive) rescores a customer base in SQL \
     without re-fitting.";

pub const COUNT_NEEDED: &'static str =
    "must be a non-negative whole count of repeat transactions; row ";

pub const AGE_NEEDED: &'static str =
    "must be > 0: a customer observed for no time carries no information; row ";

pub const NO_REPEATS: &'static str =
    " customers has a repeat transaction, so the dropout \
     process is not identified: the likelihood does not depend on `a` or `b` \
     at all when every frequency is zero";

pub const NO_INTERIOR: &'static str =
    ". A curvature computed \
     there is not a posterior, so this fit reports no interval. The usual \
     cause is that too few repeat buyers have gone quiet -- a recency equal \
     to its age means the customer has never been seen to stop -- which \
     drives the dropout probability toward zero and leaves `a` and `b` \
     unidentified.";

pub const NO_INTERIOR_PROPER: &'static str =
    " Extend the observation window past the last transactions: the \
     prior is already proper, so it is the data that carries no \
     information about churning, and a tighter prior would only be \
     answering the question itself";

pub const NO_INTERIOR_ADVICE: &'static str =
    " Extend the observation window past the last transactions, or set \
     a proper `prior`";

pub const FEW_CUSTOMERS: &'static str =
    ": four population parameters estimated from this few describe the sample rather than the base";

/// Mean and standard deviation of the log of each parameter.
#[derive(Debug, Clone, Copy)]
pub struct Prior {
    pub r: (Double, Double),
    pub alpha: (Double, Double),
    pub a: (Double, Double),
    pub b: (Double, Double),
}

impl Prior {
    /// The prior of one parameter.
    pub open spec fn of_param(cfg: Scope, name: Seq<char>) -> Result<(Double, Double), Fault> {
        cfg.centre_and_spread(
            name,
            "log_mean"@,
            Double { bits: 0 },
            "log_sd"@,
            Double::spec_infinity(),
        )
    }

    /// The prior that a table of options asks for.
    pub open spec fn asked(cfg: Scope) -> Result<Prior, Fault> {
        let r = Prior::of_param(cfg, "r"@);
        let alpha = Prior::of_param(cfg, "alpha"@);
        let a = Prior::of_param(cfg, "a"@);
        let b = Prior::of_param(cfg, "b"@);
        if let Some(f) = cfg.unknown_slot(crate::text::words(PARAMS@)) {
            Err(f)
        } else if let Err(f) = r {
            Err(f)
        } else if let Err(f) = alpha {
            Err(f)
        } else if let Err(f) = a {
            Err(f)
        } else if let Err(f) = b {
            Err(f)
        } else {
            Ok(Prior { r: r->Ok_0, alpha: alpha->Ok_0, a: a->Ok_0, b: b->Ok_0 })
        }
    }

    /// Whether every parameter carries a proper prior.
    pub open spec fn proper(self) -> bool {
        &&& self.r.1.finite()
        &&& self.alpha.1.finite()
        &&& self.a.1.finite()
        &&& self.b.1.finite()
    }

    pub fn parse(cfg: &Section) -> (r: BayesResult<Prior>)
        ensures
            crate::errors::plain(r) == Prior::asked(cfg@),
    {
        cfg.reject_unknown(&PARAMS)?;
        let zero = Double::zero();
        let flat = Double::infinity();
        let r = cfg.location_and_scale("r", "log_mean", zero, "log_sd", flat)?;
        let alpha = cfg.location_and_scale("alpha", "log_mean", zero, "log_sd", flat)?;
        let a = cfg.location_and_scale("a", "log_mean", zero, "log_sd", flat)?;
        let b = cfg.location_and_scale("b", "log_mean", zero, "log_sd", flat)?;
        Ok(Prior { r, alpha, a, b })
    }

    /// Whether every parameter carries a proper prior.
    pub fn is_proper(&self) -> (r: bool)
        ensures
            r == self.proper(),
    {
        self.r.1.is_finite() && self.alpha.1.is_finite() && self.a.1.is_finite()
            && self.b.1.is_finite()
    }
}

/// What a request asks for.
#[derive(Debug)]
pub struct Request {
    pub frequency: String,
    pub recency: String,
    pub age: String,
    pub min_customers: usize,
    pub prior: Prior,
}

/// What a [`Request`] says.
#[verifier::ext_equal]
pub struct Asked {
    pub frequency: Seq<char>,
    pub recency: Seq<char>,
    pub age: Seq<char>,
    pub min_customers: usize,
    pub prior: Prior,
}

impl View for Request {
    type V = Asked;

    open spec fn view(&self) -> Asked {
        Asked {
            frequency: self.frequency@,
            recency: self.recency@,
            age: self.age@,
            min_customers: self.min_customers,
            prior: self.prior,
        }
    }
}

impl Asked {
    /// The request that the options make, or the first thing wrong with them.
    pub open spec fn of(cfg: Scope) -> Result<Asked, Fault> {
        let frequency = cfg.required_text("frequency"@);
        let recency = cfg.required_text("recency"@);
        let age = cfg.required_text("age"@);
        let min_customers = cfg.count_in("min_customers"@, 50, 1, 1_000_000_000);
        let table = cfg.table("prior"@);
        let prior = Prior::asked(table->Ok_0);
        if let Some(f) = cfg.unknown_slot(crate::text::words(SLOTS@)) {
            Err(f)
        } else if let Err(f) = frequency {
            Err(f)
        } else if let Err(f) = recency {
            Err(f)
        } else if let Err(f) = age {
            Err(f)
        } else if let Err(f) = min_customers {
            Err(f)
        } else if let Err(f) = table {
            Err(f)
        } else if let Err(f) = prior {
            Err(f)
        } else {
            Ok(
                Asked {
                    frequency: frequency->Ok_0,
                    recency: recency->Ok_0,
                    age: age->Ok_0,
                    min_customers: min_customers->Ok_0,
                    prior: prior->Ok_0,
                },
            )
        }
    }

    /// The number columns that the request reads.
    pub open spec fn columns(self) -> Seq<Seq<char>> {
        seq![self.frequency, self.recency, self.age]
    }
}

impl Request {
    /// Reads a request from its options.
    pub fn parse(cfg: &Config) -> (r: BayesResult<Request>)
        ensures
            crate::errors::outcome(r) == Asked::of(cfg@),
    {
        let cfg = cfg.root();
        cfg.reject_unknown(&SLOTS)?;
        let frequency = cfg.require_str("frequency")?;
        let recency = cfg.require_str("recency")?;
        let age = cfg.require_str("age")?;
        let min_customers = cfg.usize_in("min_customers", 50, 1, 1_000_000_000)?;
        let table = cfg.nested("prior")?;
        let prior = Prior::parse(&table)?;
        Ok(Request { frequency, recency, age, min_customers, prior })
    }

    /// The number columns that the request reads.
    fn list_columns(&self) -> (r: Vec<String>)
        ensures
            crate::text::texts(r@) == self@.columns(),
    {
        let mut names: Vec<String> = Vec::new();
        proof {
            assert(crate::text::texts(names@) =~= Seq::<Seq<char>>::empty());
        }
        push_text(&mut names, self.frequency.as_str());
        push_text(&mut names, self.recency.as_str());
        push_text(&mut names, self.age.as_str());
        proof {
            assert(crate::text::texts(names@) =~= self@.columns());
        }
        names
    }
}

/// A customer: repeat transactions, time of the last one, time observed.
#[derive(Debug, Clone, Copy, PartialEq, Eq, Structural)]
pub struct Customer {
    pub x: Double,
    pub t_x: Double,
    pub t: Double,
}

impl Customer {
    /// What is wrong with a customer's statistics, if anything: they must be able to have
    /// come from a purchase history.
    pub open spec fn fault(self, row: usize) -> Option<Fault> {
        let zero = Double { bits: 0 };
        let number = crate::text::numeral(row as nat);
        if !self.x.whole_count() {
            Some(
                Fault::config_showing(
                    "frequency"@,
                    COUNT_NEEDED@ + number + " is "@,
                    self.x,
                    ""@,
                ),
            )
        } else if self.t.le(zero) {
            Some(Fault::config_showing("age"@, AGE_NEEDED@ + number + " is "@, self.t, ""@))
        } else if self.t_x.below_zero() || self.t.lt(self.t_x) {
            Some(
                Fault::Config {
                    slot: "recency"@,
                    message: Message::showing_two(
                        "must lie in [0, age]; row "@ + number + " has recency "@,
                        self.t_x,
                        " against age "@,
                        self.t,
                    ),
                },
            )
        } else if self.x.positive() && self.t_x.le(zero) {
            Some(
                Fault::config_showing(
                    "recency"@,
                    "a customer with "@,
                    self.x,
                    " repeat transactions cannot have recency 0; row "@ + number,
                ),
            )
        } else {
            None
        }
    }

    fn check(self, row: usize) -> (r: BayesResult<()>)
        ensures
            match r {
                Ok(_) => self.fault(row) is None,
                Err(e) => self.fault(row) == Some(e@),
            },
    {
        let zero = Double::zero();
        if !self.x.is_whole_count() {
            return Err(
                BayesError::config_number(
                    "frequency",
                    COUNT_NEEDED.to_owned().concat(decimal(row).as_str()).concat(" is "),
                    self.x,
                    "",
                ),
            );
        }
        if self.t.at_most(zero) {
            return Err(
                BayesError::config_number(
                    "age",
                    AGE_NEEDED.to_owned().concat(decimal(row).as_str()).concat(" is "),
                    self.t,
                    "",
                ),
            );
        }
        if self.t_x.is_below_zero() || self.t.less_than(self.t_x) {
            return Err(
                BayesError::Config {
                    slot: "recency".to_owned(),
                    message: Message::with_two_numbers(
                        "must lie in [0, age]; row ".to_owned().concat(
                            decimal(row).as_str(),
                        ).concat(" has recency "),
                        self.t_x,
                        " against age ",
                        self.t,
                    ),
                },
            );
        }
        if self.x.is_positive() && self.t_x.at_most(zero) {
            return Err(
                BayesError::config_number(
                    "recency",
                    "a customer with ".to_owned(),
                    self.x,
                    " repeat transactions cannot have recency 0; row ".to_owned().concat(
                        decimal(row).as_str(),
                    ).as_str(),
                ),
            );
        }
        Ok(())
    }
}

/// The customers in several rows.
pub open spec fn customers(
    frequency: NumericColumn,
    recency: NumericColumn,
    age: NumericColumn,
    rows: Seq<usize>,
) -> Seq<Customer> {
    Seq::new(
        rows.len(),
        |i: int|
            Customer {
                x: frequency.values@[rows[i] as int],
                t_x: recency.values@[rows[i] as int],
                t: age.values@[rows[i] as int],
            },
    )
}

/// Customer by customer, what is wrong with them.
pub open spec fn customer_checks(obs: Seq<Customer>, rows: Seq<usize>) -> Seq<Option<Fault>> {
    Seq::new(obs.len(), |i: int| obs[i].fault(rows[i]))
}

/// Whether no customer has a repeat transaction.
pub open spec fn no_repeats(obs: Seq<Customer>) -> bool {
    forall|i: int| 0 <= i < obs.len() ==> (#[trigger] obs[i]).x.le(Double { bits: 0 })
}

/// A customer base ready to be fitted.
#[derive(Debug)]
pub struct CustomerBase {
    pub params: Vec<ParamName>,
    pub obs: Vec<Customer>,
    pub prior: Prior,
    pub min_customers: usize,
}

/// What a [`CustomerBase`] holds.
#[verifier::ext_equal]
pub struct Read {
    pub params: Seq<ParamId>,
    pub obs: Seq<Customer>,
    pub prior: Prior,
    pub min_customers: usize,
}

impl View for CustomerBase {
    type V = Read;

    open spec fn view(&self) -> Read {
        Read {
            params: crate::draws::ids(self.params@),
            obs: self.obs@,
            prior: self.prior,
            min_customers: self.min_customers,
        }
    }
}

/// The parameters, in the order in which draws report them.
pub open spec fn param_ids() -> Seq<ParamId> {
    seq![ParamId::global("r"@)] + seq![ParamId::global("alpha"@)] + seq![ParamId::global("a"@)]
        + seq![ParamId::global("b"@)]
}

/// What a request makes of a relation: the customer base, or the first thing that stands
/// in its way.
pub open spec fn built(cfg: Scope, data: DataView) -> Result<Read, Fault> {
    match Asked::of(cfg) {
        Err(f) => Err(f),
        Ok(asked) => match data.usable(asked.columns(), Seq::empty()) {
            Err(f) => Err(f),
            Ok(rows) => {
                let obs = customers(
                    data.column(asked.frequency)->0,
                    data.column(asked.recency)->0,
                    data.column(asked.age)->0,
                    rows,
                );
                if let Some(f) = crate::data::first_fault(customer_checks(obs, rows)) {
                    Err(f)
                } else if obs.len() <= 4 {
                    Err(Fault::InsufficientData { rows: obs.len() as usize, params: 4 })
                } else {
                    Ok(
                        Read {
                            params: param_ids(),
                            obs,
                            prior: asked.prior,
                            min_customers: asked.min_customers,
                        },
                    )
                }
            },
        },
    }
}

/// What a request reads of a relation, or the first thing wrong with its options and
/// columns.
pub open spec fn reads(cfg: Scope, data: DataView) -> Result<Entries, Fault> {
    match Asked::of(cfg) {
        Err(f) => Err(f),
        Ok(asked) => crate::reading::reading_of(
            data,
            asked.columns(),
            Seq::empty(),
        ),
    }
}

/// A base has one customer per row that was read.
pub proof fn a_fit_holds_every_row_read(cfg: Scope, data: DataView)
    ensures
        built(cfg, data) matches Ok(base) ==> (reads(cfg, data) matches Ok(r) && base.obs.len()
            == r.rows.len()),
{
}

/// Two relations that were read alike give the same fit, wherever one of them gives any:
/// nothing else of a relation reaches it.
pub proof fn what_is_read_decides_the_fit(cfg: Scope, a: DataView, b: DataView)
    requires
        built(cfg, a) is Ok,
        reads(cfg, b) is Ok,
        reads(cfg, a)->Ok_0.same_entries(reads(cfg, b)->Ok_0),
    ensures
        built(cfg, a) == built(cfg, b),
{
    let asked = Asked::of(cfg)->Ok_0;
    let columns = asked.columns();
    let read_a = reads(cfg, a)->Ok_0;
    let read_b = reads(cfg, b)->Ok_0;
    let obs_a = customers(
        a.column(asked.frequency)->0,
        a.column(asked.recency)->0,
        a.column(asked.age)->0,
        read_a.rows,
    );
    let obs_b = customers(
        b.column(asked.frequency)->0,
        b.column(asked.recency)->0,
        b.column(asked.age)->0,
        read_b.rows,
    );
    assert(columns[0] == asked.frequency && columns[1] == asked.recency && columns[2]
        == asked.age);
    assert forall|i: int| 0 <= i < obs_a.len() implies #[trigger] obs_a[i] == obs_b[i] by {
        assert(read_a.numbers[0][i] == read_b.numbers[0][i]);
        assert(read_a.numbers[1][i] == read_b.numbers[1][i]);
        assert(read_a.numbers[2][i] == read_b.numbers[2][i]);
    }
    assert(obs_a =~= obs_b);
    let checks_a = customer_checks(obs_a, read_a.rows);
    let checks_b = customer_checks(obs_b, read_b.rows);
    crate::data::lemma_no_fault_follows(checks_a, checks_b);
    let m = built(cfg, a)->Ok_0;
    let n = built(cfg, b)->Ok_0;
    assert(m =~= n);
}

/// Whether the table of a prior may be written as it is.
pub open spec fn prior_is_sound(entries: Seq<Entry>) -> bool {
    &&& crate::config::only(entries, seq!["r"@, "alpha"@, "a"@, "b"@])
    &&& crate::config::takes_table(entries, "r"@)
    &&& crate::config::only(crate::config::table_of(entries, "r"@), seq!["log_mean"@, "log_sd"@])
    &&& crate::config::takes_number(crate::config::table_of(entries, "r"@), "log_mean"@)
    &&& crate::config::takes_positive(crate::config::table_of(entries, "r"@), "log_sd"@)
    &&& crate::config::takes_table(entries, "alpha"@)
    &&& crate::config::only(crate::config::table_of(entries, "alpha"@), seq!["log_mean"@, "log_sd"@])
    &&& crate::config::takes_number(crate::config::table_of(entries, "alpha"@), "log_mean"@)
    &&& crate::config::takes_positive(crate::config::table_of(entries, "alpha"@), "log_sd"@)
    &&& crate::config::takes_table(entries, "a"@)
    &&& crate::config::only(crate::config::table_of(entries, "a"@), seq!["log_mean"@, "log_sd"@])
    &&& crate::config::takes_number(crate::config::table_of(entries, "a"@), "log_mean"@)
    &&& crate::config::takes_positive(crate::config::table_of(entries, "a"@), "log_sd"@)
    &&& crate::config::takes_table(entries, "b"@)
    &&& crate::config::only(crate::config::table_of(entries, "b"@), seq!["log_mean"@, "log_sd"@])
    &&& crate::config::takes_number(crate::config::table_of(entries, "b"@), "log_mean"@)
    &&& crate::config::takes_positive(crate::config::table_of(entries, "b"@), "log_sd"@)
}

/// Whether a prior is the one that its table asks for: each number from the slot of its own
/// name, in the table of its own parameter, and its default where nothing is written.
pub open spec fn prior_is_as_written(entries: Seq<Entry>, prior: Prior) -> bool {
    &&& prior.r.0 == crate::config::number_or(
        crate::config::table_of(entries, "r"@),
        "log_mean"@,
        Double { bits: 0 },
    )
    &&& prior.r.1 == crate::config::number_or(
        crate::config::table_of(entries, "r"@),
        "log_sd"@,
        Double { bits: 0x7FF0_0000_0000_0000 },
    )
    &&& prior.alpha.0 == crate::config::number_or(
        crate::config::table_of(entries, "alpha"@),
        "log_mean"@,
        Double { bits: 0 },
    )
    &&& prior.alpha.1 == crate::config::number_or(
        crate::config::table_of(entries, "alpha"@),
        "log_sd"@,
        Double { bits: 0x7FF0_0000_0000_0000 },
    )
    &&& prior.a.0 == crate::config::number_or(
        crate::config::table_of(entries, "a"@),
        "log_mean"@,
        Double { bits: 0 },
    )
    &&& prior.a.1 == crate::config::number_or(
        crate::config::table_of(entries, "a"@),
        "log_sd"@,
        Double { bits: 0x7FF0_0000_0000_0000 },
    )
    &&& prior.b.0 == crate::config::number_or(
        crate::config::table_of(entries, "b"@),
        "log_mean"@,
        Double { bits: 0 },
    )
    &&& prior.b.1 == crate::config::number_or(
        crate::config::table_of(entries, "b"@),
        "log_sd"@,
        Double { bits: 0x7FF0_0000_0000_0000 },
    )
}

proof fn lemma_prior_asked(cfg: Scope)
    ensures
        Prior::asked(cfg) is Ok <==> prior_is_sound(cfg.entries),
        Prior::asked(cfg) matches Ok(prior) ==> prior_is_as_written(cfg.entries, prior),
{
    assert(crate::text::words(PARAMS@) =~= seq!["r"@, "alpha"@, "a"@, "b"@]);
    crate::config::an_unknown_slot_is_named_by_its_path(cfg, crate::text::words(PARAMS@));
    crate::config::a_table_gives_the_numbers_written(
        cfg,
        "r"@,
        "log_mean"@,
        Double { bits: 0 },
        "log_sd"@,
        Double { bits: 0x7FF0_0000_0000_0000 },
    );
    crate::config::a_table_gives_the_numbers_written(
        cfg,
        "alpha"@,
        "log_mean"@,
        Double { bits: 0 },
        "log_sd"@,
        Double { bits: 0x7FF0_0000_0000_0000 },
    );
    crate::config::a_table_gives_the_numbers_written(
        cfg,
        "a"@,
        "log_mean"@,
        Double { bits: 0 },
        "log_sd"@,
        Double { bits: 0x7FF0_0000_0000_0000 },
    );
    crate::config::a_table_gives_the_numbers_written(
        cfg,
        "b"@,
        "log_mean"@,
        Double { bits: 0 },
        "log_sd"@,
        Double { bits: 0x7FF0_0000_0000_0000 },
    );
}

/// Whether the options of a request may be written as they are.
pub open spec fn request_is_sound(entries: Seq<Entry>) -> bool {
    &&& crate::config::only(
        entries,
        seq![
            "frequency"@,
            "recency"@,
            "age"@,
            "prior"@,
            "min_customers"@,
            "draws"@,
            "chains"@,
            "max_draw_megabytes"@,
            "seed"@,
            "engine"@,
        ],
    )
    &&& crate::config::text_of(entries, "frequency"@) is Some
    &&& crate::config::text_of(entries, "recency"@) is Some
    &&& crate::config::text_of(entries, "age"@) is Some
    &&& crate::config::takes_count(entries, "min_customers"@, 1, 1_000_000_000)
    &&& crate::config::takes_table(entries, "prior"@)
    &&& prior_is_sound(crate::config::table_of(entries, "prior"@))
}

/// A request is what its options say, each taken from the slot of its own name, and it is
/// served exactly when its options may be written as they are.
pub proof fn a_request_is_what_its_options_say(cfg: Scope)
    ensures
        Asked::of(cfg) is Ok <==> request_is_sound(cfg.entries),
        Asked::of(cfg) matches Ok(asked) ==> {
            let e = cfg.entries;
            &&& Some(asked.frequency) == crate::config::text_of(e, "frequency"@)
            &&& Some(asked.recency) == crate::config::text_of(e, "recency"@)
            &&& Some(asked.age) == crate::config::text_of(e, "age"@)
            &&& crate::config::counts_or(e, "min_customers"@, 50, asked.min_customers as nat)
            &&& prior_is_as_written(crate::config::table_of(e, "prior"@), asked.prior)
        },
{
    let known = crate::text::words(SLOTS@);
    assert(known =~= seq![
        "frequency"@,
        "recency"@,
        "age"@,
        "prior"@,
        "min_customers"@,
        "draws"@,
        "chains"@,
        "max_draw_megabytes"@,
        "seed"@,
        "engine"@,
    ]);
    crate::config::an_unknown_slot_is_named_by_its_path(cfg, known);
    crate::config::a_text_slot_gives_the_text_written(cfg, "frequency"@);
    crate::config::a_text_slot_gives_the_text_written(cfg, "recency"@);
    crate::config::a_text_slot_gives_the_text_written(cfg, "age"@);
    crate::config::a_count_slot_gives_the_count_written(
        cfg,
        "min_customers"@,
        50,
        1,
        1_000_000_000,
    );
    crate::config::a_text_slot_gives_the_text_written(cfg, "prior"@);
    if let Ok(table) = cfg.table("prior"@) {
        lemma_prior_asked(table);
    }
}

/// The columns that a request names: those of the frequencies, the recencies and the ages.
pub open spec fn columns_named(entries: Seq<Entry>) -> Seq<Seq<char>> {
    seq![
        crate::config::text_of(entries, "frequency"@)->0,
        crate::config::text_of(entries, "recency"@)->0,
        crate::config::text_of(entries, "age"@)->0,
    ]
}

/// Whether customers are read from those rows, in that order: of each row its own frequency,
/// its own recency and its own age.
pub open spec fn holds_the_rows(
    entries: Seq<Entry>,
    data: DataView,
    obs: Seq<Customer>,
    rows: Seq<usize>,
) -> bool {
    let frequency = data.column(crate::config::text_of(entries, "frequency"@)->0)->0.values@;
    let recency = data.column(crate::config::text_of(entries, "recency"@)->0)->0.values@;
    let age = data.column(crate::config::text_of(entries, "age"@)->0)->0.values@;
    &&& crate::panel::each_present_row_once(data, columns_named(entries), Seq::empty(), rows)
    &&& forall|i: int, j: int|
        0 <= i < j < rows.len() ==> (#[trigger] rows[i]) < (#[trigger] rows[j])
    &&& obs.len() == rows.len()
    &&& forall|i: int|
        0 <= i < rows.len() ==> {
            &&& (#[trigger] obs[i]).x == frequency[rows[i] as int]
            &&& obs[i].t_x == recency[rows[i] as int]
            &&& obs[i].t == age[rows[i] as int]
        }
}

/// Each complete row of the relation is one customer, in the order of the relation: the
/// frequency, the recency and the age of a customer all stand in the customer's own row.
pub proof fn a_customer_is_one_row(cfg: Config, data: DataView, base: CustomerBase)
    requires
        built(cfg@, data) == Ok::<Read, Fault>(base@),
    ensures
        exists|rows: Seq<usize>| holds_the_rows(cfg.entries@, data, base.obs@, rows),
{
    let e = cfg.entries@;
    a_request_is_what_its_options_say(cfg@);
    let asked = Asked::of(cfg@)->Ok_0;
    let columns = asked.columns();
    assert(columns =~= columns_named(e));
    crate::panel::the_rows_read_are_the_complete_ones(data, columns, Seq::empty());
    let rows = data.usable(columns, Seq::empty())->Ok_0;
    assert(base@.obs == base.obs@);
    assert(holds_the_rows(e, data, base.obs@, rows));
}

/// Whether a row can have come from a purchase history: a whole number of repeat
/// transactions, a time observed that is above zero, a last transaction within it, and one
/// after the first where there is a repeat.
pub open spec fn row_is_sound(entries: Seq<Entry>, data: DataView, row: int) -> bool {
    let x = data.column(crate::config::text_of(entries, "frequency"@)->0)->0.values@[row];
    let t_x = data.column(crate::config::text_of(entries, "recency"@)->0)->0.values@[row];
    let t = data.column(crate::config::text_of(entries, "age"@)->0)->0.values@[row];
    &&& x.finite()
    &&& exists|n: nat| x.scaled() == #[trigger] (n * crate::double::one_scaled())
    &&& t.nan() || t.scaled() > 0
    &&& t_x.nan() || t_x.scaled() >= 0 && (t.nan() || t_x.scaled() <= t.scaled())
    &&& x.scaled() > 0 && !t_x.nan() ==> t_x.scaled() > 0
}

/// A base is read exactly when the options are sound, the columns are there, every complete
/// row can have come from a purchase history, and there are more of them than parameters.
pub proof fn a_base_is_read_exactly_when_it_can_be(cfg: Config, data: DataView, rows: Seq<usize>)
    requires
        crate::panel::each_present_row_once(
            data,
            columns_named(cfg.entries@),
            Seq::empty(),
            rows,
        ),
    ensures
        built(cfg@, data) is Ok <==> {
            let e = cfg.entries@;
            &&& request_is_sound(e)
            &&& forall|c: int|
                0 <= c < 3 ==> data.column(#[trigger] columns_named(e)[c]) is Some
            &&& forall|i: int|
                0 <= i < rows.len() ==> row_is_sound(e, data, (#[trigger] rows[i]) as int)
            &&& rows.len() > 4
        },
{
    let e = cfg.entries@;
    a_request_is_what_its_options_say(cfg@);
    if request_is_sound(e) {
        let asked = Asked::of(cfg@)->Ok_0;
        let columns = asked.columns();
        assert(columns =~= columns_named(e));
        crate::panel::the_rows_read_are_the_complete_ones(data, columns, Seq::empty());
        if let Ok(read) = data.usable(columns, Seq::empty()) {
            crate::panel::lemma_same_rows_read(data, columns, Seq::empty(), rows, read);
            let obs = customers(
                data.column(asked.frequency)->0,
                data.column(asked.recency)->0,
                data.column(asked.age)->0,
                read,
            );
            let checks = customer_checks(obs, read);
            crate::double::zero_is_nothing();
            assert forall|i: int| 0 <= i < read.len() implies ((#[trigger] checks[i]) is None
                <==> row_is_sound(e, data, read[i] as int)) by {
                crate::double::a_count_is_its_value(obs[i].x);
            }
            if crate::data::first_fault(checks) is None {
                crate::data::lemma_no_fault(checks);
                assert forall|i: int| 0 <= i < rows.len() implies row_is_sound(
                    e,
                    data,
                    (#[trigger] rows[i]) as int,
                ) by {
                    assert(rows.contains(rows[i]));
                    let j = choose|j: int| 0 <= j < read.len() && read[j] == rows[i];
                    assert(checks[j] is None);
                }
            } else if forall|i: int|
                0 <= i < rows.len() ==> row_is_sound(e, data, (#[trigger] rows[i]) as int) {
                assert forall|i: int| 0 <= i < checks.len() implies (#[trigger] checks[i]) is None
                    by {
                    assert(read.contains(read[i]));
                    let j = choose|j: int| 0 <= j < rows.len() && rows[j] == read[i];
                    assert(row_is_sound(e, data, rows[j] as int));
                }
                crate::data::lemma_first_fault(checks, checks.len() as int);
            }
        }
    }
}

/// A base has the threshold and the prior that its options say, and the four parameters by
/// their names, each reported as the exponential of the coordinate of its own number.
pub proof fn a_base_carries_its_options(cfg: Config, data: DataView, base: CustomerBase)
    requires
        built(cfg@, data) == Ok::<Read, Fault>(base@),
    ensures
        ({
            let e = cfg.entries@;
            let names = seq!["r"@, "alpha"@, "a"@, "b"@];
            &&& crate::config::counts_or(e, "min_customers"@, 50, base.min_customers as nat)
            &&& prior_is_as_written(crate::config::table_of(e, "prior"@), base.prior)
            &&& base.params@.len() == 4
            &&& formulas().len() == 4
            &&& forall|i: int|
                0 <= i < 4 ==> (#[trigger] base.params@[i]).group_id@ == "__global__"@
                    && base.params@[i].name@ == names[i] && formulas()[i] == (Formula::Exp {
                    at: i as usize,
                })
        }),
{
    a_request_is_what_its_options_say(cfg@);
    let ids = base@.params;
    assert(ids == param_ids());
    assert forall|i: int| 0 <= i < 4 implies (#[trigger] base.params@[i]).group_id@
        == "__global__"@ && base.params@[i].name@ == seq!["r"@, "alpha"@, "a"@, "b"@][i] by {
        assert(base.params@[i]@ == ids[i]);
    }
    assert(ids.len() == base.params@.len());
}

fn read_customers(
    frequency: &NumericColumn,
    recency: &NumericColumn,
    age: &NumericColumn,
    rows: &Vec<usize>,
) -> (r: BayesResult<Vec<Customer>>)
    requires
        crate::data::rows_within(rows@, frequency.values@.len() as int),
        crate::data::rows_within(rows@, recency.values@.len() as int),
        crate::data::rows_within(rows@, age.values@.len() as int),
    ensures
        match r {
            Ok(obs) => obs@ == customers(*frequency, *recency, *age, rows@)
                && crate::data::first_fault(customer_checks(obs@, rows@)) is None,
            Err(e) => crate::data::first_fault(
                customer_checks(customers(*frequency, *recency, *age, rows@), rows@),
            ) == Some(e@),
        },
{
    let ghost all = customers(*frequency, *recency, *age, rows@);
    let ghost checks = customer_checks(all, rows@);
    let mut obs: Vec<Customer> = Vec::new();
    let mut k: usize = 0;
    while k < rows.len()
        invariant
            k <= rows@.len(),
            crate::data::rows_within(rows@, frequency.values@.len() as int),
            crate::data::rows_within(rows@, recency.values@.len() as int),
            crate::data::rows_within(rows@, age.values@.len() as int),
            all == customers(*frequency, *recency, *age, rows@),
            checks == customer_checks(all, rows@),
            obs@ == all.take(k as int),
            forall|i: int| 0 <= i < k ==> (#[trigger] checks[i]) is None,
        decreases rows@.len() - k,
    {
        let row: usize = rows[k];
        let customer = Customer {
            x: frequency.values[row],
            t_x: recency.values[row],
            t: age.values[row],
        };
        proof {
            assert(customer == all[k as int]);
        }
        match customer.check(row) {
            Ok(_) => {},
            Err(e) => {
                proof {
                    assert(checks[k as int] == Some(e@));
                    crate::data::lemma_first_fault(checks, k as int);
                }
                return Err(e);
            },
        }
        obs.push(customer);
        k += 1;
        proof {
            assert(obs@ =~= all.take(k as int));
        }
    }
    proof {
        assert(all.take(k as int) =~= all);
        crate::data::lemma_first_fault(checks, k as int);
    }
    Ok(obs)
}

/// Reads a request and the relation it names.
pub fn build(cfg: &Config, data: &DataView) -> (r: BayesResult<CustomerBase>)
    requires
        data.wf(),
    ensures
        crate::errors::outcome(r) == built(cfg@, *data),
{
    let request = Request::parse(cfg)?;
    let names = request.list_columns();
    let none: Vec<String> = Vec::new();
    let ghost all = crate::text::texts(names@);
    proof {
        assert(crate::text::texts(none@) =~= Seq::<Seq<char>>::empty());
    }
    let rows = data.usable_rows(&names, &none)?;
    proof {
        assert(names@[0]@ == all[0] && names@[1]@ == all[1] && names@[2]@ == all[2]);
    }
    let frequency = data.numeric(request.frequency.as_str())?;
    let recency = data.numeric(request.recency.as_str())?;
    let age = data.numeric(request.age.as_str())?;
    let obs = read_customers(frequency, recency, age, &rows)?;
    if obs.len() <= 4 {
        return Err(BayesError::InsufficientData { rows: obs.len(), params: 4 });
    }
    let mut params: Vec<ParamName> = Vec::new();
    proof {
        assert(crate::draws::ids(params@) =~= Seq::<ParamId>::empty());
    }
    push_global(&mut params, "r");
    push_global(&mut params, "alpha");
    push_global(&mut params, "a");
    push_global(&mut params, "b");
    proof {
        assert(crate::draws::ids(params@) =~= param_ids());
    }
    Ok(
        CustomerBase {
            params,
            obs,
            prior: request.prior,
            min_customers: request.min_customers,
        },
    )
}

/// Why a search did not end at a mode to put a posterior around.
#[derive(Debug, Clone, Copy, PartialEq, Eq, Structural)]
pub enum Boundary {
    SearchDidNotFinish,
    LeftTheAdmissibleRange,
    NotStationary,
    CurvatureIsNotAPosterior,
    FlatRidge,
}

pub const SEARCH_DID_NOT_FINISH: &'static str =
    "the search for the most likely parameters never settled";

pub const LEFT_THE_ADMISSIBLE_RANGE: &'static str =
    "the search ran off toward zero or infinity instead of settling";

pub const NOT_STATIONARY: &'static str =
    "the search stopped where the likelihood is still climbing, so there is no \
     interior maximum to put a posterior around";

pub const CURVATURE_IS_NOT_A_POSTERIOR: &'static str =
    "the curvature at the best-fitting parameters is not a covariance: the \
     likelihood is exactly flat in at least one direction";

pub const FLAT_RIDGE: &'static str =
    "the likelihood is nearly flat along a ridge, so the parameters are only \
     identified as a combination and not individually";

impl Boundary {
    pub open spec fn explanation(self) -> Seq<char> {
        match self {
            Boundary::SearchDidNotFinish => SEARCH_DID_NOT_FINISH@,
            Boundary::LeftTheAdmissibleRange => LEFT_THE_ADMISSIBLE_RANGE@,
            Boundary::NotStationary => NOT_STATIONARY@,
            Boundary::CurvatureIsNotAPosterior => CURVATURE_IS_NOT_A_POSTERIOR@,
            Boundary::FlatRidge => FLAT_RIDGE@,
        }
    }

    /// The cause, for a reader.
    pub fn explain(&self) -> (r: &'static str)
        ensures
            r@ == self.explanation(),
    {
        match self {
            Boundary::SearchDidNotFinish => SEARCH_DID_NOT_FINISH,
            Boundary::LeftTheAdmissibleRange => LEFT_THE_ADMISSIBLE_RANGE,
            Boundary::NotStationary => NOT_STATIONARY,
            Boundary::CurvatureIsNotAPosterior => CURVATURE_IS_NOT_A_POSTERIOR,
            Boundary::FlatRidge => FLAT_RIDGE,
        }
    }
}

/// The variance of one coordinate at the mode, and its square root.
#[derive(Debug, Clone, Copy, PartialEq, Eq, Structural)]
pub struct Marginal {
    pub variance: Double,
    pub sd: Double,
}

impl Marginal {
    /// Whether it is the marginal of a posterior rather than of a ridge.
    pub open spec fn usable(self) -> bool {
        self.variance.finite() && !self.variance.below_zero() && !(Double {
            bits: MAX_LOG_SD_BITS,
        }).lt(self.sd)
    }
}

/// What a mode search came back with, and what was computed at the place it stopped.
#[derive(Debug)]
pub struct ModeSearch {
    /// The place, or nothing where the search failed.
    pub mode: Option<Vec<Double>>,
    /// The gradient there.
    pub gradient: Vec<Double>,
    pub gradient_norm: Double,
    /// The norm from which on a gradient is not zero.
    pub tolerance: Double,
    /// The marginals there, or nothing where the curvature could not be factored; a
    /// coordinate whose system could not be solved has none.
    pub marginals: Option<Vec<Option<Marginal>>>,
}

/// Where a search ended.
#[derive(Debug)]
pub enum Fitted {
    Mode(Vec<Double>),
    Boundary(Boundary),
}

/// What a [`Fitted`] says.
#[verifier::ext_equal]
pub enum Located {
    Mode(Seq<Double>),
    Boundary(Boundary),
}

impl View for Fitted {
    type V = Located;

    open spec fn view(&self) -> Located {
        match self {
            Fitted::Mode(theta) => Located::Mode(theta@),
            Fitted::Boundary(cause) => Located::Boundary(*cause),
        }
    }
}

/// Whether a coordinate lies in the range a mode may have.
pub open spec fn admissible(v: Double) -> bool {
    v.finite() && v.scaled_magnitude() <= (Double { bits: LOG_BOUNDARY_BITS }).scaled()
}

/// Whether a point may be explored: every coordinate is a number and lies within bounds.
/// Elsewhere the density is zero, and is not evaluated.
pub open spec fn explorable(theta: Seq<Double>) -> bool {
    forall|i: int| 0 <= i < theta.len() ==> crate::catalog::common::in_box(#[trigger] theta[i])
}

/// Whether a point may be explored; where it may not, its density is zero.
pub fn is_explorable(theta: &Vec<Double>) -> (r: bool)
    ensures
        r == explorable(theta@),
{
    let mut k: usize = 0;
    while k < theta.len()
        invariant
            k <= theta@.len(),
            forall|i: int|
                0 <= i < k ==> crate::catalog::common::in_box(#[trigger] theta@[i]),
        decreases theta@.len() - k,
    {
        if !is_in_box(theta[k]) {
            proof {
                assert(!crate::catalog::common::in_box(theta@[k as int]));
            }
            return false;
        }
        k += 1;
    }
    true
}

/// Whether all coordinates lie in the range a mode may have.
pub open spec fn all_admissible(s: Seq<Double>) -> bool {
    forall|i: int| 0 <= i < s.len() ==> admissible(#[trigger] s[i])
}

/// What is wrong with the marginals from the one numbered `k` on, if anything.
pub open spec fn marginal_fault(s: Seq<Option<Marginal>>, k: int) -> Option<Boundary>
    decreases s.len() - k,
{
    if k < 0 || k >= s.len() {
        None
    } else {
        match s[k] {
            None => Some(Boundary::CurvatureIsNotAPosterior),
            Some(m) => if m.usable() {
                marginal_fault(s, k + 1)
            } else {
                Some(Boundary::FlatRidge)
            },
        }
    }
}

impl ModeSearch {
    /// Where the search ended: at a mode, or at the first thing that says it is none.
    pub open spec fn located(self) -> Located {
        match self.mode {
            None => Located::Boundary(Boundary::SearchDidNotFinish),
            Some(mode) => if mode@.len() != 4 {
                Located::Boundary(Boundary::SearchDidNotFinish)
            } else if !all_admissible(mode@) {
                Located::Boundary(Boundary::LeftTheAdmissibleRange)
            } else if self.gradient@.len() != 4 || !crate::catalog::common::all_finite(self.gradient@) {
                Located::Boundary(Boundary::SearchDidNotFinish)
            } else if self.tolerance.le(self.gradient_norm) {
                Located::Boundary(Boundary::NotStationary)
            } else {
                match self.marginals {
                    None => Located::Boundary(Boundary::CurvatureIsNotAPosterior),
                    Some(m) => if m@.len() != 4 {
                        Located::Boundary(Boundary::CurvatureIsNotAPosterior)
                    } else {
                        match marginal_fault(m@, 0) {
                            Some(cause) => Located::Boundary(cause),
                            None => Located::Mode(mode@),
                        }
                    },
                }
            },
        }
    }

    fn mode_is_admissible(mode: &Vec<Double>) -> (r: bool)
        ensures
            r == all_admissible(mode@),
    {
        let bound = Double { bits: LOG_BOUNDARY_BITS };
        let mut k: usize = 0;
        while k < mode.len()
            invariant
                k <= mode@.len(),
                bound.bits == LOG_BOUNDARY_BITS,
                forall|i: int| 0 <= i < k ==> admissible(#[trigger] mode@[i]),
            decreases mode@.len() - k,
        {
            let v = mode[k];
            if !v.is_finite() || bound.less_than(v.abs()) {
                proof {
                    assert(!admissible(mode@[k as int]));
                }
                return false;
            }
            proof {
                assert(!bound.nan());
                assert(admissible(mode@[k as int]));
            }
            k += 1;
        }
        true
    }

    fn judge_marginals(m: &Vec<Option<Marginal>>) -> (r: Option<Boundary>)
        ensures
            r == marginal_fault(m@, 0),
    {
        let widest = Double { bits: MAX_LOG_SD_BITS };
        let mut k: usize = 0;
        while k < m.len()
            invariant
                k <= m@.len(),
                widest.bits == MAX_LOG_SD_BITS,
                marginal_fault(m@, 0) == marginal_fault(m@, k as int),
            decreases m@.len() - k,
        {
            match m[k] {
                None => {
                    return Some(Boundary::CurvatureIsNotAPosterior);
                },
                Some(c) => {
                    if !c.variance.is_finite() || c.variance.is_below_zero() || widest.less_than(
                        c.sd,
                    ) {
                        return Some(Boundary::FlatRidge);
                    }
                },
            }
            k += 1;
        }
        None
    }

    /// Decides where the search ended.
    pub fn locate_mode(self) -> (r: Fitted)
        ensures
            r@ == self.located(),
    {
        let mode = match self.mode {
            Some(mode) => mode,
            None => {
                return Fitted::Boundary(Boundary::SearchDidNotFinish);
            },
        };
        if mode.len() != 4 {
            return Fitted::Boundary(Boundary::SearchDidNotFinish);
        }
        if !ModeSearch::mode_is_admissible(&mode) {
            return Fitted::Boundary(Boundary::LeftTheAdmissibleRange);
        }
        if self.gradient.len() != 4 || !are_finite_until(
            &self.gradient,
            self.gradient.len(),
        ) {
            return Fitted::Boundary(Boundary::SearchDidNotFinish);
        }
        if self.tolerance.at_most(self.gradient_norm) {
            return Fitted::Boundary(Boundary::NotStationary);
        }
        let marginals = match self.marginals {
            Some(marginals) => marginals,
            None => {
                return Fitted::Boundary(Boundary::CurvatureIsNotAPosterior);
            },
        };
        if marginals.len() != 4 {
            return Fitted::Boundary(Boundary::CurvatureIsNotAPosterior);
        }
        match ModeSearch::judge_marginals(&marginals) {
            Some(cause) => Fitted::Boundary(cause),
            None => Fitted::Mode(mode),
        }
    }
}

/// A compiled model.
#[derive(Debug)]
pub struct CompiledPayerAlive {
    pub base: CustomerBase,
    pub fitted: Fitted,
}

impl CustomerBase {
    /// Whether the data alone says that the dropout process is not identified.
    pub fn lacks_repeats(&self) -> (r: bool)
        ensures
            r == no_repeats(self.obs@),
    {
        let zero = Double::zero();
        let mut k: usize = 0;
        while k < self.obs.len()
            invariant
                k <= self.obs@.len(),
                zero.bits == 0,
                forall|i: int| 0 <= i < k ==> (#[trigger] self.obs@[i]).x.le(Double { bits: 0 }),
            decreases self.obs@.len() - k,
        {
            if !self.obs[k].x.at_most(zero) {
                proof {
                    assert(!self.obs@[k as int].x.le(Double { bits: 0 }));
                }
                return false;
            }
            k += 1;
        }
        true
    }

    /// Judges the outcome of a mode search. A base without repeat transactions has no
    /// mode, whatever a search says.
    pub fn judge(self, search: ModeSearch) -> (r: CompiledPayerAlive)
        ensures
            r.base == self,
            r.fitted@ == if no_repeats(self.obs@) {
                Located::Boundary(Boundary::CurvatureIsNotAPosterior)
            } else {
                search.located()
            },
    {
        let fitted = if self.lacks_repeats() {
            Fitted::Boundary(Boundary::CurvatureIsNotAPosterior)
        } else {
            search.locate_mode()
        };
        CompiledPayerAlive { base: self, fitted }
    }
}

/// The verdict on a fit that ended where it did.
pub open spec fn verdict_on(base: Read, located: Located) -> Verdict {
    let number = crate::text::numeral(base.obs.len());
    if no_repeats(base.obs) {
        Verdict::because(
            FitStatus::Degenerate,
            Message::saying("none of the "@ + number + NO_REPEATS@),
        )
    } else if let Located::Boundary(cause) = located {
        Verdict::because(
            FitStatus::Degenerate,
            Message::saying(
                "no interior maximum for these "@ + number + " customers: "@ + cause.explanation()
                    + NO_INTERIOR@ + if base.prior.proper() {
                    NO_INTERIOR_PROPER@
                } else {
                    NO_INTERIOR_ADVICE@
                },
            ),
        )
    } else if base.obs.len() < base.min_customers {
        Verdict::because(
            FitStatus::InsufficientData,
            Message::saying(
                number + " customers is below the min_customers threshold of "@
                    + crate::text::numeral(base.min_customers as nat) + FEW_CUSTOMERS@,
            ),
        )
    } else {
        Verdict::ready()
    }
}

/// How the parameters are computed from the coordinates: each is the exponential of its
/// own.
pub open spec fn formulas() -> Seq<Formula> {
    seq![
        Formula::Exp { at: 0 },
        Formula::Exp { at: 1 },
        Formula::Exp { at: 2 },
        Formula::Exp { at: 3 },
    ]
}

impl CompiledPayerAlive {
    pub fn n_obs(&self) -> (r: usize)
        ensures
            r == self.base.obs@.len(),
    {
        self.base.obs.len()
    }

    /// The parameters describe the population: there is one group.
    pub fn n_groups(&self) -> (r: usize)
        ensures
            r == 1,
    {
        1
    }

    pub fn dim(&self) -> (r: usize)
        ensures
            r == 4,
    {
        4
    }

    pub fn readiness(&self) -> (r: Readiness)
        ensures
            r@ == verdict_on(self.base@, self.fitted@),
    {
        let n = self.base.obs.len();
        if self.base.lacks_repeats() {
            return Readiness::degenerate(
                Message::of("none of the ".to_owned().concat(decimal(n).as_str()).concat(NO_REPEATS)),
            );
        }
        if let Fitted::Boundary(cause) = &self.fitted {
            let mut text = "no interior maximum for these ".to_owned().concat(
                decimal(n).as_str(),
            ).concat(" customers: ").concat(cause.explain()).concat(NO_INTERIOR);
            if self.base.prior.is_proper() {
                text.append(NO_INTERIOR_PROPER);
            } else {
                text.append(NO_INTERIOR_ADVICE);
            }
            return Readiness::degenerate(Message::of(text));
        }
        if n < self.base.min_customers {
            return Readiness::insufficient(
                Message::of(
                    decimal(n).concat(" customers is below the min_customers threshold of ").concat(
                        decimal(self.base.min_customers).as_str(),
                    ).concat(FEW_CUSTOMERS),
                ),
            );
        }
        Readiness::ready()
    }

    /// Whether there is no posterior here, so that every draw is absent.
    pub fn refuses(&self) -> (r: bool)
        ensures
            r == (self.fitted@ is Boundary),
    {
        match &self.fitted {
            Fitted::Mode(_) => false,
            Fitted::Boundary(_) => true,
        }
    }

    /// Refuses buffers that do not hold one entry per coordinate.
    pub fn check_gradient_buffers(&self, theta: usize, out: usize) -> (r: BayesResult<()>)
        ensures
            r is Ok <==> theta == 4 && out == 4,
            r matches Err(e) ==> e@ == Fault::coordinates(4, theta, out),
    {
        BayesError::check_coordinates(4, theta, out)
    }

    /// Where a search over the coordinates starts: at the mode, or at the origin where
    /// there is none.
    pub fn initial(&self) -> (r: Vec<Double>)
        ensures
            r@ == match self.fitted@ {
                Located::Mode(theta) => theta,
                Located::Boundary(_) => Seq::new(4, |j: int| Double { bits: 0 }),
            },
    {
        match &self.fitted {
            Fitted::Mode(theta) => {
                let r = theta.clone();
                proof {
                    assert(r@ =~= theta@);
                }
                r
            },
            Fitted::Boundary(_) => {
                let zero = Double::zero();
                let mut r: Vec<Double> = Vec::new();
                r.push(zero);
                r.push(zero);
                r.push(zero);
                r.push(zero);
                proof {
                    assert(r@ =~= Seq::new(4, |j: int| Double { bits: 0 }));
                }
                r
            },
        }
    }

    /// How each parameter is computed from the coordinates, in the order of the names.
    pub fn constrain(&self) -> (r: Vec<Formula>)
        ensures
            r@ == if self.fitted@ is Boundary {
                crate::formula::repeated(Formula::Absent, 4)
            } else {
                formulas()
            },
    {
        if self.refuses() {
            return absent(4);
        }
        let mut out: Vec<Formula> = Vec::new();
        out.push(Formula::Exp { at: 0 });
        out.push(Formula::Exp { at: 1 });
        out.push(Formula::Exp { at: 2 });
        out.push(Formula::Exp { at: 3 });
        proof {
            assert(out@ =~= formulas());
        }
        out
    }
}

/// A fit judged from a search reports no number exactly when its verdict is degenerate;
/// a base that is merely thin keeps its draws.
pub proof fn draws_are_absent_exactly_when_the_fit_is_degenerate(base: Read, search: ModeSearch)
    ensures
        ({
            let located = if no_repeats(base.obs) {
                Located::Boundary(Boundary::CurvatureIsNotAPosterior)
            } else {
                search.located()
            };
            located is Boundary <==> verdict_on(base, located).status == FitStatus::Degenerate
        }),
{
}

/// A search that ends at a mode gives back the very place it was handed, within bounds,
/// with a gradient that is finite and below tolerance and with marginals that are all
/// there.
pub proof fn an_accepted_mode_passed_every_test(search: ModeSearch)
    ensures
        search.located() matches Located::Mode(theta) ==> {
            &&& search.mode matches Some(mode) && mode@ == theta
            &&& theta.len() == 4
            &&& all_admissible(theta)
            &&& search.gradient@.len() == 4
            &&& crate::catalog::common::all_finite(search.gradient@)
            &&& !search.tolerance.le(search.gradient_norm)
            &&& search.marginals matches Some(m) && m@.len() == 4 && forall|i: int|
                0 <= i < m@.len() ==> ((#[trigger] m@[i]) matches Some(c) && c.usable())
        },
{
    if search.located() is Mode {
        lemma_marginals(search.marginals->0@, 0);
    }
}

/// A mode that is accepted is a point that may be explored.
pub proof fn an_accepted_mode_may_be_explored(search: ModeSearch)
    ensures
        search.located() matches Located::Mode(theta) ==> explorable(theta),
{
    let near = Double { bits: LOG_BOUNDARY_BITS };
    let far = Double { bits: crate::catalog::common::LOG_BOX_BITS };
    assert(near.exponent() == 1027 && far.exponent() == 1027);
    assert(near.scaled() <= far.scaled()) by {
        let unit = vstd::arithmetic::power2::pow2(1026) as int;
        let a = near.fraction() + 0x10_0000_0000_0000;
        let b = far.fraction() + 0x10_0000_0000_0000;
        assert(a <= b);
        assert(a * unit <= b * unit) by (nonlinear_arith)
            requires
                a <= b,
                0 <= unit,
        ;
    }
}

proof fn lemma_marginals(s: Seq<Option<Marginal>>, k: int)
    requires
        0 <= k <= s.len(),
        marginal_fault(s, k) is None,
    ensures
        forall|i: int| k <= i < s.len() ==> ((#[trigger] s[i]) matches Some(c) && c.usable()),
    decreases s.len() - k,
{
    if k < s.len() {
        lemma_marginals(s, k + 1);
    }
}

/// Whether a coordinate is a number from minus 25 to 25.
pub open spec fn within_reach(v: Double) -> bool {
    v.finite() && -25 * crate::double::one_scaled() <= v.scaled() <= 25
        * crate::double::one_scaled()
}

/// Whether a marginal is there, with a variance that is a number and not negative, and a
/// spread that is not above three.
pub open spec fn narrow(m: Option<Marginal>) -> bool {
    m matches Some(c) && c.variance.finite() && c.variance.scaled() >= 0 && (c.sd.nan()
        || c.sd.scaled() <= 3 * crate::double::one_scaled())
}

proof fn lemma_bounds(v: Double, m: Option<Marginal>)
    ensures
        admissible(v) <==> within_reach(v),
        (m matches Some(c) && c.usable()) <==> narrow(m),
{
    let reach = Double { bits: 0x4039_0000_0000_0000 };
    let widest = Double { bits: 0x4008_0000_0000_0000 };
    assert(reach.exponent() == 1027 && reach.fraction() == 0x9_0000_0000_0000);
    assert(widest.exponent() == 1024 && widest.fraction() == 0x8_0000_0000_0000);
    vstd::arithmetic::power2::lemma2_to64();
    vstd::arithmetic::power2::lemma2_to64_rest();
    crate::double::a_shifted_whole_number_is_itself(reach, 25, 48);
    crate::double::a_shifted_whole_number_is_itself(widest, 3, 51);
    crate::double::a_magnitude_is_never_negative(v);
    assert(!widest.nan());
}

proof fn lemma_marginal_fault(s: Seq<Option<Marginal>>, k: int)
    requires
        0 <= k <= s.len(),
    ensures
        marginal_fault(s, k) is None <==> forall|i: int|
            k <= i < s.len() ==> narrow(#[trigger] s[i]),
        marginal_fault(s, k) matches Some(cause) ==> exists|i: int|
            #![trigger s[i]]
            k <= i < s.len() && !narrow(s[i]) && (forall|j: int|
                k <= j < i ==> narrow(#[trigger] s[j])) && cause == if s[i] is None {
                Boundary::CurvatureIsNotAPosterior
            } else {
                Boundary::FlatRidge
            },
    decreases s.len() - k,
{
    if k < s.len() {
        lemma_bounds(Double { bits: 0 }, s[k]);
        lemma_marginal_fault(s, k + 1);
        if narrow(s[k]) {
            if marginal_fault(s, k) is Some {
                let i = choose|i: int|
                    #![trigger s[i]]
                    k + 1 <= i < s.len() && !narrow(s[i]) && (forall|j: int|
                        k + 1 <= j < i ==> narrow(#[trigger] s[j])) && marginal_fault(s, k + 1)
                        == Some(
                        if s[i] is None {
                            Boundary::CurvatureIsNotAPosterior
                        } else {
                            Boundary::FlatRidge
                        },
                    );
                assert(!narrow(s[i]));
                assert forall|j: int| k <= j < i implies narrow(#[trigger] s[j]) by {}
            }
        } else {
            assert(!narrow(s[k]));
        }
    }
}

/// A search ends at a mode exactly when it found a place of four coordinates within reach,
/// with a gradient of four numbers whose norm is not up to the tolerance and four narrow
/// marginals; that place is then the mode.
pub proof fn a_mode_is_accepted_exactly_when_it_is_one(search: ModeSearch)
    ensures
        search.located() is Mode <==> {
            &&& search.mode is Some
            &&& search.mode->0@.len() == 4
            &&& forall|i: int| 0 <= i < 4 ==> within_reach(#[trigger] search.mode->0@[i])
            &&& search.gradient@.len() == 4
            &&& forall|i: int| 0 <= i < 4 ==> (#[trigger] search.gradient@[i]).finite()
            &&& search.tolerance.nan() || search.gradient_norm.nan()
                || search.gradient_norm.scaled() < search.tolerance.scaled()
            &&& search.marginals is Some
            &&& search.marginals->0@.len() == 4
            &&& forall|i: int| 0 <= i < 4 ==> narrow(#[trigger] search.marginals->0@[i])
        },
        search.located() matches Located::Mode(theta) ==> search.mode matches Some(mode)
            && theta == mode@,
{
    if search.mode is Some {
        let mode = search.mode->0@;
        assert forall|i: int| 0 <= i < mode.len() implies (admissible(#[trigger] mode[i])
            <==> within_reach(mode[i])) by {
            lemma_bounds(mode[i], None);
        }
    }
    if search.marginals is Some {
        lemma_marginal_fault(search.marginals->0@, 0);
    }
}

/// A search that did not end at a mode is told apart by the first thing that was wrong: it
/// found no place, the place is out of reach, the gradient is no gradient, the gradient is
/// not zero, the curvature could not be factored, or a marginal is not narrow.
pub proof fn a_boundary_names_the_first_thing_wrong(search: ModeSearch)
    ensures
        search.located() matches Located::Boundary(cause) ==> {
            let found = search.mode is Some && search.mode->0@.len() == 4;
            let near = forall|i: int|
                0 <= i < 4 ==> within_reach(#[trigger] search.mode->0@[i]);
            let computed = search.gradient@.len() == 4 && forall|i: int|
                0 <= i < 4 ==> (#[trigger] search.gradient@[i]).finite();
            let climbing = !search.tolerance.nan() && !search.gradient_norm.nan()
                && search.tolerance.scaled() <= search.gradient_norm.scaled();
            let factored = search.marginals is Some && search.marginals->0@.len() == 4;
            &&& !found ==> cause == Boundary::SearchDidNotFinish
            &&& found && !near ==> cause == Boundary::LeftTheAdmissibleRange
            &&& found && near && !computed ==> cause == Boundary::SearchDidNotFinish
            &&& found && near && computed && climbing ==> cause == Boundary::NotStationary
            &&& found && near && computed && !climbing && !factored ==> cause
                == Boundary::CurvatureIsNotAPosterior
            &&& found && near && computed && !climbing && factored ==> exists|i: int|
                #![trigger search.marginals->0@[i]]
                0 <= i < 4 && !narrow(search.marginals->0@[i]) && (forall|j: int|
                    0 <= j < i ==> narrow(#[trigger] search.marginals->0@[j])) && cause
                    == if search.marginals->0@[i] is None {
                    Boundary::CurvatureIsNotAPosterior
                } else {
                    Boundary::FlatRidge
                }
        },
{
    if search.mode is Some {
        let mode = search.mode->0@;
        assert forall|i: int| 0 <= i < mode.len() implies (admissible(#[trigger] mode[i])
            <==> within_reach(mode[i])) by {
            lemma_bounds(mode[i], None);
        }
    }
    if search.marginals is Some {
        lemma_marginal_fault(search.marginals->0@, 0);
    }
}

/// The verdict on a base read from a relation: degenerate where no customer came back or the
/// search found no mode, insufficient where there are fewer customers than asked for, and
/// ready otherwise.
pub proof fn a_verdict_goes_by_customers_and_mode(cfg: Config, data: DataView, model: CompiledPayerAlive)
    requires
        built(cfg@, data) == Ok::<Read, Fault>(model.base@),
    ensures
        ({
            let status = verdict_on(model.base@, model.fitted@).status;
            let quiet = forall|i: int|
                0 <= i < model.base.obs@.len() ==> (#[trigger] model.base.obs@[i]).x.scaled() == 0;
            if quiet || model.fitted is Boundary {
                status == FitStatus::Degenerate
            } else if model.base.obs@.len() < model.base.min_customers {
                status == FitStatus::InsufficientData
            } else {
                status == FitStatus::Converged
            }
        }),
{
    let asked = Asked::of(cfg@)->Ok_0;
    let rows = data.usable(asked.columns(), Seq::empty())->Ok_0;
    let obs = model.base.obs@;
    assert(model.base@.obs == obs);
    let checks = customer_checks(obs, rows);
    crate::data::lemma_no_fault(checks);
    crate::double::zero_is_nothing();
    assert forall|i: int| 0 <= i < obs.len() implies ((#[trigger] obs[i]).x.le(
        Double { bits: 0 },
    ) <==> obs[i].x.scaled() == 0) by {
        assert(checks[i] is None);
    }
}

/// Every parameter is positive by construction.
pub proof fn parameters_are_positive_by_construction(i: int)
    requires
        0 <= i < formulas().len(),
    ensures
        formulas().len() == param_ids().len(),
        formulas()[i].sign() == Sign::Positive,
        formulas()[i].reads_within(4),
        formulas()[i].reads(i),
{
}

/// What is read for the identity of the data is what a fit is made of: every column that the
/// options name, at every complete row, and nothing else.
pub proof fn the_columns_read_are_the_ones_named(cfg: Config, data: DataView, reading: Reading)
    requires
        reads(cfg@, data) == Ok::<Entries, Fault>(reading@),
    ensures
        crate::reading::holds_the_columns(
            data,
            columns_named(cfg.entries@),
            Seq::empty(),
            reading,
        ),
{
    a_request_is_what_its_options_say(cfg@);
    let asked = Asked::of(cfg@)->Ok_0;
    assert(asked.columns() =~= columns_named(cfg.entries@));
    crate::reading::a_reading_holds_the_named_columns(
        data,
        columns_named(cfg.entries@),
        Seq::empty(),
        reading,
    );
}

/// A point may be explored exactly when every coordinate lies from minus thirty to thirty.
pub proof fn a_point_is_explored_within_bounds(theta: Seq<Double>)
    ensures
        explorable(theta) <==> forall|i: int|
            0 <= i < theta.len() ==> crate::catalog::common::within_thirty(#[trigger] theta[i]),
{
    assert forall|i: int| 0 <= i < theta.len() implies (crate::catalog::common::in_box(
        #[trigger] theta[i],
    ) <==> crate::catalog::common::within_thirty(theta[i])) by {
        crate::catalog::common::the_bound_is_thirty_either_way(theta[i]);
    }
}

/// Whether an error is the one of a row: it refuses the slot of the statistic that is not
/// sound, and shows what is wrong with it.
pub open spec fn blames_the_row(
    entries: Seq<Entry>,
    data: DataView,
    row: int,
    e: BayesError,
) -> bool {
    let x = data.column(crate::config::text_of(entries, "frequency"@)->0)->0.values@[row];
    let t_x = data.column(crate::config::text_of(entries, "recency"@)->0)->0.values@[row];
    let t = data.column(crate::config::text_of(entries, "age"@)->0)->0.values@[row];
    if !(x.finite() && exists|n: nat| x.scaled() == #[trigger] (n * crate::double::one_scaled())) {
        crate::catalog::common::shows(e, "frequency"@, x)
    } else if !t.nan() && t.scaled() <= 0 {
        crate::catalog::common::shows(e, "age"@, t)
    } else if !t_x.nan() && (t_x.scaled() < 0 || !t.nan() && t_x.scaled() > t.scaled()) {
        crate::catalog::common::shows(e, "recency"@, t_x)
    } else {
        crate::catalog::common::shows(e, "recency"@, x)
    }
}

proof fn lemma_row_fault(
    entries: Seq<Entry>,
    data: DataView,
    customer: Customer,
    row: usize,
    e: BayesError,
)
    requires
        customer.x == data.column(
            crate::config::text_of(entries, "frequency"@)->0,
        )->0.values@[row as int],
        customer.t_x == data.column(
            crate::config::text_of(entries, "recency"@)->0,
        )->0.values@[row as int],
        customer.t == data.column(
            crate::config::text_of(entries, "age"@)->0,
        )->0.values@[row as int],
    ensures
        customer.fault(row) is None <==> row_is_sound(entries, data, row as int),
        customer.fault(row) == Some(e@) ==> blames_the_row(entries, data, row as int, e),
{
    crate::double::zero_is_nothing();
    crate::double::a_count_is_its_value(customer.x);
    if customer.fault(row) == Some(e@) {
        crate::catalog::common::lemma_shows(e, e@->slot);
    }
}

/// A sound request that a relation cannot serve is refused for the first thing that is wrong
/// with the relation: a column that is not there, a row that is not sound, which is shown, or
/// fewer rows than it takes, with both numbers.
#[verifier::rlimit(40)]
pub proof fn a_refusal_says_what_is_wrong(
    cfg: Config,
    data: DataView,
    rows: Seq<usize>,
    e: BayesError,
)
    requires
        built(cfg@, data) == Err::<Read, Fault>(e@),
        request_is_sound(cfg.entries@),
        crate::panel::each_present_row_once(
            data,
            columns_named(cfg.entries@),
            Seq::empty(),
            rows,
        ),
    ensures
        ({
            let entries = cfg.entries@;
            let names = columns_named(entries);
            if exists|c: int| 0 <= c < 3 && data.column(#[trigger] names[c]) is None {
                crate::panel::names_a_missing_column(data, names, Seq::empty(), e)
            } else if exists|i: int|
                0 <= i < rows.len() && !row_is_sound(entries, data, (#[trigger] rows[i]) as int) {
                exists|i: int|
                    0 <= i < rows.len() && !row_is_sound(
                        entries,
                        data,
                        (#[trigger] rows[i]) as int,
                    ) && blames_the_row(entries, data, rows[i] as int, e)
            } else {
                e matches BayesError::InsufficientData { rows: n, params } && n == rows.len()
                    && params == 4
            }
        }),
{
    let entries = cfg.entries@;
    a_request_is_what_its_options_say(cfg@);
    let asked = Asked::of(cfg@)->Ok_0;
    let columns = asked.columns();
    assert(columns =~= columns_named(entries));
    crate::panel::the_rows_read_are_the_complete_ones(data, columns, Seq::empty());
    crate::errors::an_error_says_what_it_holds(e);
    match data.usable(columns, Seq::empty()) {
        Err(f) => {
            assert(crate::panel::group_columns(None) =~= Seq::<Seq<char>>::empty());
            crate::panel::a_panel_is_refused_for_what_is_missing(data, columns, None, true, e);
        },
        Ok(read) => {
            crate::panel::lemma_same_rows_read(data, columns, Seq::empty(), rows, read);
            let obs = customers(
                data.column(asked.frequency)->0,
                data.column(asked.recency)->0,
                data.column(asked.age)->0,
                read,
            );
            let checks = customer_checks(obs, read);
            assert forall|i: int| 0 <= i < read.len() implies ((#[trigger] checks[i]) is None
                <==> row_is_sound(entries, data, read[i] as int)) by {
                lemma_row_fault(entries, data, obs[i], read[i], e);
            }
            if crate::data::first_fault(checks) is Some {
                crate::data::lemma_fault_of_a_check(checks);
                let i = choose|i: int|
                    0 <= i < checks.len() && (#[trigger] checks[i]) == crate::data::first_fault(
                        checks,
                    );
                assert(checks[i] == Some(e@));
                lemma_row_fault(entries, data, obs[i], read[i], e);
                assert(read.contains(read[i]));
                let j = choose|j: int| 0 <= j < rows.len() && rows[j] == read[i];
                assert(!row_is_sound(entries, data, rows[j] as int));
                assert(blames_the_row(entries, data, rows[j] as int, e));
            } else {
                crate::data::lemma_no_fault(checks);
                assert forall|i: int| 0 <= i < rows.len() implies row_is_sound(
                    entries,
                    data,
                    (#[trigger] rows[i]) as int,
                ) by {
                    assert(rows.contains(rows[i]));
                    let j = choose|j: int| 0 <= j < read.len() && read[j] == rows[i];
                    assert(checks[j] is None);
                }
            }
        },
    }
}

/// Whether a slot of the options is at fault: it is not known, or what is written in it may not
/// stand there, or the prior is not sound.
pub open spec fn is_at_fault(entries: Seq<Entry>, slot: Seq<char>) -> bool {
    ||| exists|i: int|
        0 <= i < entries.len() && slot == (#[trigger] entries[i]).name@ && !seq![
            "frequency"@,
            "recency"@,
            "age"@,
            "prior"@,
            "min_customers"@,
            "draws"@,
            "chains"@,
            "max_draw_megabytes"@,
            "seed"@,
            "engine"@,
        ].contains(slot)
    ||| slot == "frequency"@ && (crate::config::text_of(entries, "frequency"@) is None)
    ||| slot == "recency"@ && (crate::config::text_of(entries, "recency"@) is None)
    ||| slot == "age"@ && (crate::config::text_of(entries, "age"@) is None)
    ||| slot == "min_customers"@ && (!crate::config::takes_count(entries, "min_customers"@, 1, 1_000_000_000))
    ||| !(crate::config::takes_table(entries, "prior"@) && prior_is_sound(
        crate::config::table_of(entries, "prior"@),
    ))
}

/// A request that is refused for its options names a slot that is at fault.
#[verifier::rlimit(40)]
pub proof fn the_slot_that_is_named_is_at_fault(cfg: Config)
    ensures
        Asked::of(cfg@) matches Err(f) ==> (f matches Fault::Config { slot, .. } && is_at_fault(
            cfg.entries@,
            slot,
        )),
{
    let entries = cfg.entries@;
    let known = crate::text::words(SLOTS@);
    assert(known =~= seq![
        "frequency"@,
        "recency"@,
        "age"@,
        "prior"@,
        "min_customers"@,
        "draws"@,
        "chains"@,
        "max_draw_megabytes"@,
        "seed"@,
        "engine"@,
    ]);
    crate::config::an_unknown_slot_is_named_by_its_path(cfg@, known);
    assert forall|name: Seq<char>| #[trigger] (Seq::<char>::empty() + name) == name by {
        assert(Seq::<char>::empty() + name =~= name);
    }
    crate::config::a_text_slot_gives_the_text_written(cfg@, "frequency"@);
    crate::config::a_refused_slot_is_named_by_its_path(
        cfg@,
        "frequency"@,
        Double { bits: 0 },
        0,
        1,
        0,
        Seq::empty(),
        "frequency"@,
    );
    crate::config::a_text_slot_gives_the_text_written(cfg@, "recency"@);
    crate::config::a_refused_slot_is_named_by_its_path(
        cfg@,
        "recency"@,
        Double { bits: 0 },
        0,
        1,
        0,
        Seq::empty(),
        "recency"@,
    );
    crate::config::a_text_slot_gives_the_text_written(cfg@, "age"@);
    crate::config::a_refused_slot_is_named_by_its_path(
        cfg@,
        "age"@,
        Double { bits: 0 },
        0,
        1,
        0,
        Seq::empty(),
        "age"@,
    );
    crate::config::a_count_slot_gives_the_count_written(
        cfg@,
        "min_customers"@,
        50,
        1,
        1_000_000_000,
    );
    crate::config::a_refused_slot_is_named_by_its_path(
        cfg@,
        "min_customers"@,
        Double { bits: 0 },
        1,
        1_000_000_000,
        50,
        Seq::empty(),
        "min_customers"@,
    );
    crate::config::a_text_slot_gives_the_text_written(cfg@, "prior"@);
    if let Ok(table) = cfg@.table("prior"@) {
        lemma_prior_asked(table);
    }
}

impl PayerAlive {
    pub fn id(&self) -> (r: &'static str)
        ensures
            r@ == ID@,
    {
        ID
    }

    pub fn code(&self) -> (r: FamilyCode)
        ensures
            r == FamilyCode::PayerAlive,
    {
        FamilyCode::PayerAlive
    }

    pub fn description(&self) -> (r: &'static str)
        ensures
            r@ == DESCRIPTION@,
    {
        DESCRIPTION
    }

    pub fn default_engine(&self) -> (r: EngineKind)
        ensures
            r == EngineKind::Laplace,
    {
        EngineKind::Laplace
    }

    pub fn config_slots(&self) -> (r: [&'static str; 10])
        ensures
            r == SLOTS,
    {
        SLOTS
    }

    /// Reads a request and the relation it names.
    pub fn compile(&self, cfg: &Config, data: &DataView) -> (r: BayesResult<CustomerBase>)
        requires
            data.wf(),
        ensures
            crate::errors::outcome(r) == built(cfg@, *data),
    {
        build(cfg, data)
    }

    /// The columns and rows that a fit of this request reads: what the fingerprint of its
    /// data is taken of.
    pub fn reading(&self, cfg: &Config, data: &DataView) -> (r: BayesResult<Reading>)
        requires
            data.wf(),
        ensures
            crate::errors::outcome(r) == reads(cfg@, *data),
    {
        let request = Request::parse(cfg)?;
        read_columns(data, request.list_columns(), &None)
    }
}

} // verus!
