//! A Gaussian linear model whose variance components are estimated rather than set.
//!
//! ```text
//!   y_i ~ N( x_i'beta + eta_{g(i)},  sigma_{g(i)}^2 )
//!
//!   eta_g   = tau * z_g,                    z_g ~ N(0, 1)     (group level)
//!   sigma_g = exp(mu_s + tau_s * w_g),      w_g ~ N(0, 1)     (group spread)
//! ```
//!
//! The residual scale is per group and the pooling scale is learned, so a question about
//! a group's tail has an answer of its own.
use super::common::{
    column_of_ones, every_same, implicated, named_columns, push_columns, ONE_BITS,
    PRIOR_DRAW_REFUSAL,
};
use crate::config::{Config, Entry, Scope, Section};
use crate::data::{gather, gather_all, DataView, Group, Members};
use crate::double::Double;
use crate::draws::{push_coefficients, push_global, push_one_each, ParamId, ParamName};
use crate::errors::{BayesError, BayesResult, Fault, Message};
use crate::formula::{absent, push_coordinates, Formula, Sign};
use crate::panel::{read_panel, Panel, PanelView};
use crate::readiness::{Readiness, Verdict};
use crate::reading::{read_columns, Entries, Reading};
use crate::text::decimal;
use crate::types::{global_group_key, EngineKind, FamilyCode, FitStatus};
use vstd::prelude::*;

verus! {

/// The family of Gaussian models with a variance per group.
#[derive(Debug)]
pub struct VaryingVarianceGaussian;

pub const SLOTS: [&'static str; 12] = [
    "y",
    "x",
    "intercept",
    "group",
    "prior",
    "draws",
    "chains",
    "warmup",
    "max_draw_megabytes",
    "seed",
    "engine",
    "sample_from",
];

pub const PRIOR_SLOTS: [&'static str; 6] = [
    "beta_scale",
    "intercept_scale",
    "pool_scale",
    "sigma_spread",
    "sigma_log_mean",
    "sigma_log_sd",
];

/// Groups below which the between-group scale is not identified.
///
/// With two groups there is one difference, and one number cannot separate groups that
/// differ from a group that is noisy.
pub const MIN_GROUPS: usize = 3;

pub const ID: &'static str = "varying_variance_gaussian";

pub const DESCRIPTION: &'static str =
    "Gaussian linear model with a residual scale per group and a learned pooling \
     scale, non-centred; the family for questions about a group's tail rather than \
     its level.";

pub const NO_LINEAR_PART: &'static str =
    "a model with no intercept and no predictors has no linear part; the group \
     effects are deviations from something, and there is nothing to deviate from";

pub const FEW_GROUPS: &'static str =
    " group(s); the between-group scale `pool_scale` \
     is a parameter here rather than a setting, and fewer than 3 groups \
     cannot identify it. Use 'pooled_gaussian' with a `pool_scale` you choose, or \
     coarsen the grouping less";

pub const FEW_INFORMATIVE: &'static str =
    " group(s) have two or more observations, so the spread of \
     the per-group variances is not identified: `sigma_spread` would be reporting \
     its prior";

pub const NO_SPREAD: &'static str =
    "every observation is identical, so the residual scale is zero and \
     `log sigma` has no mode";

/// Prior hyperparameters.
#[derive(Debug, Clone, Copy)]
pub struct Prior {
    pub intercept_scale: Double,
    pub beta_scale: Double,
    /// Half-Normal scale of the between-group spread; the response's own spread unless it
    /// is set, which makes no claim about units.
    pub pool_scale: Double,
    /// Half-Normal scale of the spread of log residual scales.
    pub sigma_spread: Double,
    pub sigma_log_mean: Double,
    pub sigma_log_sd: Double,
}

impl Prior {
    /// The prior that a table of options asks for, for a response of that spread.
    pub open spec fn asked(cfg: Scope, response_sd: Double) -> Result<Prior, Fault> {
        let flat = Double::spec_infinity();
        let intercept_scale = cfg.positive_number("intercept_scale"@, flat);
        let beta_scale = cfg.positive_number("beta_scale"@, flat);
        let pool_scale = cfg.positive_number("pool_scale"@, response_sd.spec_floored());
        let sigma_spread = cfg.positive_number("sigma_spread"@, Double { bits: ONE_BITS });
        let sigma_log_mean = cfg.number("sigma_log_mean"@, Double { bits: 0 });
        let sigma_log_sd = cfg.positive_number("sigma_log_sd"@, flat);
        if let Some(f) = cfg.unknown_slot(crate::text::words(PRIOR_SLOTS@)) {
            Err(f)
        } else if let Err(f) = intercept_scale {
            Err(f)
        } else if let Err(f) = beta_scale {
            Err(f)
        } else if let Err(f) = pool_scale {
            Err(f)
        } else if let Err(f) = sigma_spread {
            Err(f)
        } else if let Err(f) = sigma_log_mean {
            Err(f)
        } else if let Err(f) = sigma_log_sd {
            Err(f)
        } else {
            Ok(
                Prior {
                    intercept_scale: intercept_scale->Ok_0,
                    beta_scale: beta_scale->Ok_0,
                    pool_scale: pool_scale->Ok_0,
                    sigma_spread: sigma_spread->Ok_0,
                    sigma_log_mean: sigma_log_mean->Ok_0,
                    sigma_log_sd: sigma_log_sd->Ok_0,
                },
            )
        }
    }

    pub fn parse(cfg: &Section, response_sd: Double) -> (r: BayesResult<Prior>)
        ensures
            crate::errors::plain(r) == Prior::asked(cfg@, response_sd),
            r matches Ok(prior) ==> prior.pool_scale.positive(),
    {
        proof {
            the_pooling_scale_is_above_zero(cfg@, response_sd);
        }
        cfg.reject_unknown(&PRIOR_SLOTS)?;
        let flat = Double::infinity();
        let intercept_scale = cfg.positive_f64_or("intercept_scale", flat)?;
        let beta_scale = cfg.positive_f64_or("beta_scale", flat)?;
        let pool_scale = cfg.positive_f64_or("pool_scale", response_sd.floored())?;
        let sigma_spread = cfg.positive_f64_or("sigma_spread", Double { bits: ONE_BITS })?;
        let sigma_log_mean = cfg.f64_or("sigma_log_mean", Double::zero())?;
        let sigma_log_sd = cfg.positive_f64_or("sigma_log_sd", flat)?;
        Ok(
            Prior {
                intercept_scale,
                beta_scale,
                pool_scale,
                sigma_spread,
                sigma_log_mean,
                sigma_log_sd,
            },
        )
    }
}

/// The scale of the between-group spread is above zero, whatever spread the response has:
/// a response that does not vary still leaves a prior that is a distribution.
pub proof fn the_pooling_scale_is_above_zero(cfg: Scope, response_sd: Double)
    ensures
        Prior::asked(cfg, response_sd) matches Ok(prior) ==> prior.pool_scale.positive(),
{
    crate::double::a_floored_number_is_above_zero(response_sd);
}

/// What a request asks for, but for its prior.
#[derive(Debug)]
pub struct Request {
    pub y: String,
    pub x: Vec<String>,
    pub intercept: bool,
    pub group: String,
}

/// What a [`Request`] says.
#[verifier::ext_equal]
pub struct Asked {
    pub y: Seq<char>,
    pub x: Seq<Seq<char>>,
    pub intercept: bool,
    pub group: Seq<char>,
}

impl View for Request {
    type V = Asked;

    open spec fn view(&self) -> Asked {
        Asked {
            y: self.y@,
            x: crate::text::texts(self.x@),
            intercept: self.intercept,
            group: self.group@,
        }
    }
}

impl Asked {
    /// The request that the options make, or the first thing wrong with them.
    pub open spec fn of(cfg: Scope) -> Result<Asked, Fault> {
        let y = cfg.required_text("y"@);
        let x = cfg.text_list("x"@);
        let intercept = cfg.number("intercept"@, Double { bits: ONE_BITS });
        let group = cfg.required_text("group"@);
        if let Some(f) = cfg.unknown_slot(crate::text::words(SLOTS@)) {
            Err(f)
        } else if let Err(f) = y {
            Err(f)
        } else if let Err(f) = x {
            Err(f)
        } else if let Err(f) = intercept {
            Err(f)
        } else if let Err(f) = group {
            Err(f)
        } else if let Err(f) = cfg.prior_draws_requested() {
            Err(f)
        } else if cfg.prior_draws_requested()->Ok_0 {
            Err(Fault::config("sample_from"@, PRIOR_DRAW_REFUSAL@))
        } else {
            Ok(
                Asked {
                    y: y->Ok_0,
                    x: x->Ok_0,
                    intercept: !intercept->Ok_0.same_value(Double { bits: 0 }),
                    group: group->Ok_0,
                },
            )
        }
    }

    /// The number columns that the request reads.
    pub open spec fn columns(self) -> Seq<Seq<char>> {
        seq![self.y] + self.x
    }

    /// How many coefficients the linear part has.
    pub open spec fn n_fixed(self) -> int {
        self.x.len() + if self.intercept {
            1int
        } else {
            0int
        }
    }
}

impl Request {
    /// Reads a request from its options.
    pub fn parse(cfg: &Config) -> (r: BayesResult<Request>)
        ensures
            crate::errors::outcome(r) == Asked::of(cfg@),
    {
        let cfg = cfg.root();
        cfg.reject_unknown(&SLOTS)?;
        let y = cfg.require_str("y")?;
        let x = cfg.str_list("x")?;
        let intercept = cfg.f64_or("intercept", Double { bits: ONE_BITS })?;
        let group = cfg.require_str("group")?;
        if cfg.asks_for_prior_draws()? {
            return Err(BayesError::config("sample_from", PRIOR_DRAW_REFUSAL));
        }
        let intercept = !intercept.equals(Double::zero());
        Ok(Request { y, x, intercept, group })
    }

    /// The number columns that the request reads.
    fn list_columns(&self) -> (r: Vec<String>)
        ensures
            crate::text::texts(r@) == self@.columns(),
    {
        named_columns(self.y.as_str(), &self.x)
    }
}

/// The rows before which each group starts, in group order, and the end of the last.
pub open spec fn group_offsets(groups: Seq<Members>) -> Seq<usize> {
    Seq::new(
        groups.len() + 1,
        |g: int| crate::data::in_group_order(groups.take(g)).len() as usize,
    )
}

/// How many of the first `n` groups have two rows or more.
pub open spec fn informative_groups(groups: Seq<Members>, n: nat) -> nat
    decreases n,
{
    if n == 0 {
        0
    } else {
        informative_groups(groups, (n - 1) as nat) + if groups[n - 1].rows.len() >= 2 {
            1nat
        } else {
            0nat
        }
    }
}

/// The verdict that the data gives before any arithmetic.
///
/// A group of one row says nothing about its own spread, which is fine: it borrows from
/// the rest. Every group being like that is not.
pub open spec fn assessment(y: Seq<Double>, groups: Seq<Members>, group: Seq<char>) -> Verdict {
    let informative = informative_groups(groups, groups.len());
    if groups.len() < MIN_GROUPS {
        Verdict::because(
            FitStatus::InsufficientData,
            Message::saying(
                "'"@ + group + "' has "@ + crate::text::numeral(groups.len()) + FEW_GROUPS@,
            ),
        )
    } else if informative < 2 {
        Verdict::because(
            FitStatus::InsufficientData,
            Message::saying("only "@ + crate::text::numeral(informative) + FEW_INFORMATIVE@),
        )
    } else if crate::catalog::common::all_same(y) {
        Verdict::because(FitStatus::Degenerate, Message::saying(NO_SPREAD@))
    } else {
        Verdict::ready()
    }
}

fn count_informative(groups: &Vec<Group>) -> (r: usize)
    ensures
        r == informative_groups(crate::data::groups_of(groups@), groups@.len()),
{
    let ghost all = crate::data::groups_of(groups@);
    let mut n: usize = 0;
    let mut k: usize = 0;
    while k < groups.len()
        invariant
            k <= groups@.len(),
            n <= k,
            all == crate::data::groups_of(groups@),
            n == informative_groups(all, k as nat),
        decreases groups@.len() - k,
    {
        proof {
            assert(all[k as int].rows == groups@[k as int].rows@);
        }
        if groups[k].rows.len() >= 2 {
            n += 1;
        }
        k += 1;
    }
    n
}

fn assess(y: &Vec<Double>, groups: &Vec<Group>, group: &str) -> (r: Readiness)
    ensures
        r@ == assessment(y@, crate::data::groups_of(groups@), group@),
{
    let n_groups = groups.len();
    if n_groups < MIN_GROUPS {
        return Readiness::insufficient(
            Message::of(
                "'".to_owned().concat(group).concat("' has ").concat(
                    decimal(n_groups).as_str(),
                ).concat(FEW_GROUPS),
            ),
        );
    }
    let informative = count_informative(groups);
    if informative < 2 {
        return Readiness::insufficient(
            Message::of(
                "only ".to_owned().concat(decimal(informative).as_str()).concat(FEW_INFORMATIVE),
            ),
        );
    }
    if every_same(y) {
        return Readiness::degenerate(Message::of(NO_SPREAD.to_owned()));
    }
    Readiness::ready()
}

/// A compiled model.
#[derive(Debug)]
pub struct CompiledVaryingVariance {
    pub params: Vec<ParamName>,
    /// Response, group after group.
    pub y: Vec<Double>,
    /// The design, column by column; the intercept's column first, where there is one.
    pub x: Vec<Vec<Double>>,
    /// `offsets[g]..offsets[g + 1]` are the rows of group `g`.
    pub offsets: Vec<usize>,
    pub group_keys: Vec<String>,
    pub intercept: bool,
    pub prior: Prior,
    pub readiness: Readiness,
}

/// What a [`CompiledVaryingVariance`] holds.
#[verifier::ext_equal]
pub struct Read {
    pub params: Seq<ParamId>,
    pub y: Seq<Double>,
    pub x: Seq<Seq<Double>>,
    pub offsets: Seq<usize>,
    pub group_keys: Seq<Seq<char>>,
    pub intercept: bool,
    pub prior: Prior,
    pub readiness: Verdict,
}

impl View for CompiledVaryingVariance {
    type V = Read;

    open spec fn view(&self) -> Read {
        Read {
            params: crate::draws::ids(self.params@),
            y: self.y@,
            x: crate::data::lists(self.x@),
            offsets: self.offsets@,
            group_keys: crate::text::texts(self.group_keys@),
            intercept: self.intercept,
            prior: self.prior,
            readiness: self.readiness@,
        }
    }
}

/// The parameters, in the order in which draws report them.
pub open spec fn param_ids(intercept: bool, x: Seq<Seq<char>>, keys: Seq<Seq<char>>) -> Seq<
    ParamId,
> {
    crate::catalog::common::intercept_ids(intercept) + crate::draws::coefficients(crate::types::global_group(), x) + seq![
        ParamId::global("pool_scale"@),
    ] + seq![ParamId::global("sigma_pop"@)] + seq![ParamId::global("sigma_spread"@)]
        + crate::draws::one_each(keys, "group_effect"@) + crate::draws::one_each(keys, "sigma"@)
}

impl Read {
    /// The model of a panel.
    pub open spec fn of(data: DataView, asked: Asked, prior: Prior, panel: PanelView) -> Read {
        let y = crate::data::gathered(data.column(asked.y)->0, panel.order());
        Read {
            params: param_ids(asked.intercept, asked.x, panel.keys()),
            y,
            x: crate::catalog::common::intercept_column(asked.intercept, panel.order().len())
                + Seq::new(
                asked.x.len(),
                |k: int| crate::data::gathered(data.column(asked.x[k])->0, panel.order()),
            ),
            offsets: group_offsets(panel.groups),
            group_keys: panel.keys(),
            intercept: asked.intercept,
            prior,
            readiness: assessment(y, panel.groups, asked.group),
        }
    }
}

/// The panel that a request reads, or the first thing that stands in its way.
pub open spec fn panel_read(cfg: Scope, data: DataView) -> Result<PanelView, Fault> {
    match Asked::of(cfg) {
        Err(f) => Err(f),
        Ok(asked) => crate::panel::panel_of(data, asked.columns(), Some(asked.group), true),
    }
}

/// The response that a request reads, in the order of the relation, or the first thing
/// that stands in its way. Its spread is what the prior of the pooling scale defaults to.
pub open spec fn response_of(cfg: Scope, data: DataView) -> Result<Seq<Double>, Fault> {
    match panel_read(cfg, data) {
        Err(f) => Err(f),
        Ok(panel) => Ok(
            crate::data::gathered(data.column(Asked::of(cfg)->Ok_0.y)->0, panel.rows),
        ),
    }
}

/// What a request makes of a relation whose response has that spread: the model, or the
/// first thing that stands in its way.
pub open spec fn built(cfg: Scope, data: DataView, response_sd: Double) -> Result<Read, Fault> {
    match panel_read(cfg, data) {
        Err(f) => Err(f),
        Ok(panel) => {
            let asked = Asked::of(cfg)->Ok_0;
            let n = panel.rows.len();
            let table = cfg.table("prior"@);
            let prior = Prior::asked(table->Ok_0, response_sd);
            let least = asked.n_fixed() + panel.groups.len();
            if let Err(f) = table {
                Err(f)
            } else if let Err(f) = prior {
                Err(f)
            } else if asked.n_fixed() == 0 {
                Err(Fault::config("x"@, NO_LINEAR_PART@))
            } else if n <= least {
                Err(Fault::InsufficientData { rows: n as usize, params: least as usize })
            } else {
                Ok(Read::of(data, asked, prior->Ok_0, panel))
            }
        },
    }
}

/// What a request reads of a relation, or the first thing wrong with its options and
/// columns.
pub open spec fn reads(cfg: Scope, data: DataView) -> Result<Entries, Fault> {
    match Asked::of(cfg) {
        Err(f) => Err(f),
        Ok(asked) => crate::reading::reading_of(
            data,
            asked.columns(),
            crate::panel::group_columns(Some(asked.group)),
        ),
    }
}

/// The response whose spread the prior may default to is the first column that was read.
pub proof fn the_spread_is_taken_of_what_was_read(cfg: Scope, data: DataView)
    ensures
        response_of(cfg, data) matches Ok(y) ==> (reads(cfg, data) matches Ok(r) && y
            == r.numbers[0]),
{
    if let Ok(asked) = Asked::of(cfg) {
        assert(asked.columns()[0] == asked.y);
    }
}

/// Groups of the same sizes end at the same rows and inform alike.
proof fn lemma_same_sizes(a: Seq<Members>, b: Seq<Members>, g: nat)
    requires
        g <= a.len(),
        a.len() == b.len(),
        forall|i: int| 0 <= i < a.len() ==> (#[trigger] a[i]).rows.len() == b[i].rows.len(),
    ensures
        crate::data::in_group_order(a.take(g as int)).len() == crate::data::in_group_order(
            b.take(g as int),
        ).len(),
        informative_groups(a, g) == informative_groups(b, g),
    decreases g,
{
    if g > 0 {
        lemma_same_sizes(a, b, (g - 1) as nat);
        assert(a.take(g as int).drop_last() =~= a.take(g - 1));
        assert(b.take(g as int).drop_last() =~= b.take(g - 1));
        assert(a[g - 1].rows.len() == b[g - 1].rows.len());
    }
}

/// A model has one response per row that was read.
pub proof fn a_model_holds_every_row_read(cfg: Scope, data: DataView, response_sd: Double)
    ensures
        built(cfg, data, response_sd) matches Ok(model) ==> (reads(cfg, data) matches Ok(r) && model.y.len()
            == r.rows.len()),
{
    if let Ok(asked) = Asked::of(cfg) {
        crate::panel::a_panel_holds_each_row_read_once(
            data,
            asked.columns(),
            Some(asked.group),
            true,
        );
    }
}

/// Two relations that were read alike give the same model, wherever one of them gives any:
/// nothing else of a relation reaches it.
pub proof fn what_is_read_decides_the_model(cfg: Scope, a: DataView, b: DataView, response_sd: Double)
    requires
        built(cfg, a, response_sd) is Ok,
        reads(cfg, b) is Ok,
        reads(cfg, a)->Ok_0.same_entries(reads(cfg, b)->Ok_0),
    ensures
        built(cfg, a, response_sd) == built(cfg, b, response_sd),
{
    let asked = Asked::of(cfg)->Ok_0;
    let columns = asked.columns();
    crate::reading::what_is_read_decides_the_panel(a, b, columns, Some(asked.group), true);
    let m = built(cfg, a, response_sd)->Ok_0;
    let n = built(cfg, b, response_sd)->Ok_0;
    let mine = panel_read(cfg, a)->Ok_0;
    let theirs = panel_read(cfg, b)->Ok_0;
    assert(columns[0] == asked.y);
    assert forall|k: int| 0 <= k < asked.x.len() implies crate::data::gathered(
        a.column(#[trigger] asked.x[k])->0,
        mine.order(),
    ) == crate::data::gathered(b.column(asked.x[k])->0, theirs.order()) by {
        assert(columns[1 + k] == asked.x[k]);
    }
    assert(m.x =~= n.x);
    lemma_same_sizes(mine.groups, theirs.groups, mine.groups.len());
    assert forall|g: int| 0 <= g < m.offsets.len() implies #[trigger] m.offsets[g]
        == n.offsets[g] by {
        lemma_same_sizes(mine.groups, theirs.groups, g as nat);
    }
    assert(m.offsets =~= n.offsets);
    assert(m =~= n);
}

fn read(cfg: &Config, data: &DataView) -> (r: BayesResult<(Request, Panel)>)
    requires
        data.wf(),
        cfg@.list_fits("x"@),
    ensures
        match r {
            Ok(v) => Asked::of(cfg@) == Ok::<_, Fault>(v.0@) && panel_read(cfg@, *data) == Ok::<
                _,
                Fault,
            >(v.1@) && v.1.wf(data.n_rows as int) && v.0.x@.len() <= usize::MAX / 4
                && data.column(v.0.y@) is Some && forall|k: int|
                0 <= k < v.0.x@.len() ==> data.column((#[trigger] v.0.x@[k])@) is Some,
            Err(e) => panel_read(cfg@, *data) == Err::<PanelView, _>(e@),
        },
{
    let request = Request::parse(cfg)?;
    let names = request.list_columns();
    let ghost all = crate::text::texts(names@);
    proof {
        assert(request.x@.len() == request@.x.len());
    }
    let group = Some(request.group.clone());
    let panel = read_panel(data, &names, &group, true)?;
    proof {
        assert(names@[0]@ == all[0]);
        assert forall|k: int| 0 <= k < request.x@.len() implies data.column(
            (#[trigger] request.x@[k])@,
        ) is Some by {
            assert(names@[1 + k]@ == all[1 + k]);
        }
    }
    Ok((request, panel))
}

/// The response that a request reads, in the order of the relation.
pub fn response(cfg: &Config, data: &DataView) -> (r: BayesResult<Vec<Double>>)
    requires
        data.wf(),
        cfg@.list_fits("x"@),
    ensures
        crate::errors::outcome(r) == response_of(cfg@, *data),
{
    let (request, panel) = read(cfg, data)?;
    let y_column = data.numeric(request.y.as_str())?;
    Ok(gather(y_column, &panel.rows))
}

fn offsets_of(groups: &Vec<Group>, n_rows: usize) -> (r: Vec<usize>)
    requires
        crate::data::in_group_order(crate::data::groups_of(groups@)).len() <= n_rows,
    ensures
        r@ == group_offsets(crate::data::groups_of(groups@)),
{
    let ghost all = crate::data::groups_of(groups@);
    let mut out: Vec<usize> = Vec::new();
    let mut at: usize = 0;
    out.push(0);
    let mut g: usize = 0;
    proof {
        assert(all.take(0) =~= Seq::<Members>::empty());
    }
    while g < groups.len()
        invariant
            g <= groups@.len(),
            all == crate::data::groups_of(groups@),
            crate::data::in_group_order(all).len() <= n_rows,
            at == crate::data::in_group_order(all.take(g as int)).len(),
            out@.len() == g + 1,
            forall|h: int| 0 <= h <= g ==> (#[trigger] out@[h]) == group_offsets(all)[h],
        decreases groups@.len() - g,
    {
        proof {
            assert(all.take(g + 1).drop_last() =~= all.take(g as int));
            lemma_offsets_grow(all, g + 1);
        }
        at += groups[g].rows.len();
        out.push(at);
        g += 1;
    }
    proof {
        assert(out@ =~= group_offsets(all));
    }
    out
}

proof fn lemma_offsets_grow(groups: Seq<Members>, g: int)
    requires
        0 <= g <= groups.len(),
    ensures
        crate::data::in_group_order(groups.take(g)).len() <= crate::data::in_group_order(
            groups,
        ).len(),
    decreases groups.len(),
{
    if g < groups.len() {
        let t = groups.drop_last();
        lemma_offsets_grow(t, g);
        assert(t.take(g) =~= groups.take(g));
    } else {
        assert(groups.take(g) =~= groups);
    }
}

/// Whether the options ask for an intercept: by any number but zero, or by none.
pub open spec fn asks_for_intercept(entries: Seq<Entry>) -> bool {
    crate::config::number_or(
        entries,
        "intercept"@,
        Double { bits: 0x3FF0_0000_0000_0000 },
    ).scaled() != 0
}

/// Whether the options of a request may be written as they are, but for its prior.
pub open spec fn request_is_sound(entries: Seq<Entry>) -> bool {
    &&& crate::config::only(
        entries,
        seq![
            "y"@,
            "x"@,
            "intercept"@,
            "group"@,
            "prior"@,
            "draws"@,
            "chains"@,
            "warmup"@,
            "max_draw_megabytes"@,
            "seed"@,
            "engine"@,
            "sample_from"@,
        ],
    )
    &&& crate::config::text_of(entries, "y"@) is Some
    &&& crate::config::takes_texts(entries, "x"@)
    &&& crate::config::takes_number(entries, "intercept"@)
    &&& crate::config::text_of(entries, "group"@) is Some
    &&& crate::config::takes_text(entries, "sample_from"@)
    &&& crate::config::text_of(entries, "sample_from"@) != Some("prior"@)
}

/// Whether the table of a prior may be written as it is.
pub open spec fn prior_is_sound(entries: Seq<Entry>) -> bool {
    &&& crate::config::only(
        entries,
        seq![
            "beta_scale"@,
            "intercept_scale"@,
            "pool_scale"@,
            "sigma_spread"@,
            "sigma_log_mean"@,
            "sigma_log_sd"@,
        ],
    )
    &&& crate::config::takes_positive(entries, "intercept_scale"@)
    &&& crate::config::takes_positive(entries, "beta_scale"@)
    &&& crate::config::takes_positive(entries, "pool_scale"@)
    &&& crate::config::takes_positive(entries, "sigma_spread"@)
    &&& crate::config::takes_number(entries, "sigma_log_mean"@)
    &&& crate::config::takes_positive(entries, "sigma_log_sd"@)
}

/// Whether a prior is the one that its table asks for: each number from the slot of its own
/// name, and its default where nothing is written. The scale of the pooling defaults to the
/// spread of the response, or to the least number of full precision where that is not above
/// it.
pub open spec fn prior_is_as_written(
    entries: Seq<Entry>,
    response_sd: Double,
    prior: Prior,
) -> bool {
    let flat = Double { bits: 0x7FF0_0000_0000_0000 };
    let least = Double { bits: 0x0010_0000_0000_0000 };
    &&& prior.intercept_scale == crate::config::number_or(entries, "intercept_scale"@, flat)
    &&& prior.beta_scale == crate::config::number_or(entries, "beta_scale"@, flat)
    &&& prior.pool_scale == crate::config::number_or(
        entries,
        "pool_scale"@,
        if !response_sd.nan() && response_sd.scaled() > least.scaled() {
            response_sd
        } else {
            least
        },
    )
    &&& prior.sigma_spread == crate::config::number_or(
        entries,
        "sigma_spread"@,
        Double { bits: 0x3FF0_0000_0000_0000 },
    )
    &&& prior.sigma_log_mean == crate::config::number_or(
        entries,
        "sigma_log_mean"@,
        Double { bits: 0 },
    )
    &&& prior.sigma_log_sd == crate::config::number_or(entries, "sigma_log_sd"@, flat)
}

/// A request is what its options say, each taken from the slot of its own name, and it is
/// served exactly when its options may be written as they are.
pub proof fn a_request_is_what_its_options_say(cfg: Scope)
    ensures
        Asked::of(cfg) is Ok <==> request_is_sound(cfg.entries),
        Asked::of(cfg) matches Ok(asked) ==> {
            let e = cfg.entries;
            &&& Some(asked.y) == crate::config::text_of(e, "y"@)
            &&& asked.x == crate::config::texts_of(e, "x"@)
            &&& asked.intercept == asks_for_intercept(e)
            &&& Some(asked.group) == crate::config::text_of(e, "group"@)
        },
{
    let one = Double { bits: 0x3FF0_0000_0000_0000 };
    let known = crate::text::words(SLOTS@);
    assert(known =~= seq![
        "y"@,
        "x"@,
        "intercept"@,
        "group"@,
        "prior"@,
        "draws"@,
        "chains"@,
        "warmup"@,
        "max_draw_megabytes"@,
        "seed"@,
        "engine"@,
        "sample_from"@,
    ]);
    crate::config::an_unknown_slot_is_named_by_its_path(cfg, known);
    crate::config::a_text_slot_gives_the_text_written(cfg, "y"@);
    crate::config::a_text_slot_gives_the_text_written(cfg, "x"@);
    crate::config::a_text_slot_gives_the_text_written(cfg, "group"@);
    crate::config::a_number_slot_gives_the_number_written(cfg, "intercept"@, one);
    crate::config::an_engine_and_a_source_are_asked_for_by_name(cfg);
    crate::double::zero_is_nothing();
    crate::double::the_bits_of_a_number_order_it(Double { bits: 0 }, one);
}

/// A prior is what its table says, each number from the slot of its own name, and it is taken
/// exactly when the table may be written as it is.
pub proof fn a_prior_is_what_its_table_says(cfg: Scope, response_sd: Double)
    ensures
        Prior::asked(cfg, response_sd) is Ok <==> prior_is_sound(cfg.entries),
        Prior::asked(cfg, response_sd) matches Ok(prior) ==> prior_is_as_written(
            cfg.entries,
            response_sd,
            prior,
        ),
{
    let flat = Double { bits: 0x7FF0_0000_0000_0000 };
    let least = Double { bits: 0x0010_0000_0000_0000 };
    let known = crate::text::words(PRIOR_SLOTS@);
    assert(known =~= seq![
        "beta_scale"@,
        "intercept_scale"@,
        "pool_scale"@,
        "sigma_spread"@,
        "sigma_log_mean"@,
        "sigma_log_sd"@,
    ]);
    crate::config::an_unknown_slot_is_named_by_its_path(cfg, known);
    crate::config::a_number_slot_gives_the_number_written(cfg, "intercept_scale"@, flat);
    crate::config::a_number_slot_gives_the_number_written(cfg, "beta_scale"@, flat);
    crate::config::a_number_slot_gives_the_number_written(
        cfg,
        "pool_scale"@,
        response_sd.spec_floored(),
    );
    crate::config::a_number_slot_gives_the_number_written(
        cfg,
        "sigma_spread"@,
        Double { bits: 0x3FF0_0000_0000_0000 },
    );
    crate::config::a_number_slot_gives_the_number_written(
        cfg,
        "sigma_log_mean"@,
        Double { bits: 0 },
    );
    crate::config::a_number_slot_gives_the_number_written(cfg, "sigma_log_sd"@, flat);
    crate::double::the_bits_of_a_number_order_it(least, flat);
}

/// The names of the number columns that a request names.
pub open spec fn columns_named(entries: Seq<Entry>) -> Seq<Seq<char>> {
    seq![crate::config::text_of(entries, "y"@)->0] + crate::config::texts_of(entries, "x"@)
}

/// Whether a model holds the values of those rows, in that order: of each row its own values,
/// in the columns of the intercept and of the predictors, and between the offsets of the group
/// that its label names.
pub open spec fn holds_the_rows(
    entries: Seq<Entry>,
    data: DataView,
    model: CompiledVaryingVariance,
    rows: Seq<usize>,
    group_of: Seq<usize>,
) -> bool {
    let x = crate::config::texts_of(entries, "x"@);
    let group = crate::config::text_of(entries, "group"@)->0;
    let labels = Seq::new(model.group_keys@.len(), |g: int| model.group_keys@[g]@);
    let y = data.column(crate::config::text_of(entries, "y"@)->0)->0.values@;
    let first = if asks_for_intercept(entries) {
        1int
    } else {
        0int
    };
    &&& crate::panel::each_present_row_once(data, columns_named(entries), seq![group], rows)
    &&& crate::panel::grouped_by_label(data.key_column(group)->0, rows, group_of, labels)
    &&& model.offsets@.len() == labels.len() + 1
    &&& model.offsets@[0] == 0
    &&& model.offsets@[labels.len() as int] == rows.len()
    &&& forall|i: int|
        0 <= i < rows.len() ==> model.offsets@[(#[trigger] group_of[i]) as int] <= i
            < model.offsets@[group_of[i] + 1]
    &&& model.y@.len() == rows.len()
    &&& forall|i: int| 0 <= i < rows.len() ==> (#[trigger] model.y@[i]) == y[rows[i] as int]
    &&& model.intercept == asks_for_intercept(entries)
    &&& model.x@.len() == first + x.len()
    &&& asks_for_intercept(entries) ==> model.x@[0]@.len() == rows.len() && forall|i: int|
        0 <= i < rows.len() ==> (#[trigger] model.x@[0]@[i]) == (Double {
            bits: 0x3FF0_0000_0000_0000,
        })
    &&& forall|k: int|
        #![trigger x[k]]
        0 <= k < x.len() ==> model.x@[first + k]@ == Seq::new(
            rows.len(),
            |i: int| data.column(x[k])->0.values@[rows[i] as int],
        )
}

proof fn lemma_places(groups: Seq<Members>)
    requires
        groups.len() <= usize::MAX,
    ensures
        crate::data::group_numbers(groups).len() == crate::data::in_group_order(groups).len(),
        forall|i: int|
            #![trigger crate::data::group_numbers(groups)[i]]
            0 <= i < crate::data::in_group_order(groups).len() ==> {
                let g = crate::data::group_numbers(groups)[i] as int;
                g < groups.len() && crate::data::in_group_order(groups.take(g)).len() <= i
                    < crate::data::in_group_order(groups.take(g + 1)).len()
            },
    decreases groups.len(),
{
    if groups.len() > 0 {
        let t = groups.drop_last();
        let m = crate::data::in_group_order(t).len();
        lemma_places(t);
        let numbers = crate::data::group_numbers(groups);
        assert forall|i: int|
            #![trigger crate::data::group_numbers(groups)[i]]
            0 <= i < crate::data::in_group_order(groups).len() implies {
            let g = crate::data::group_numbers(groups)[i] as int;
            g < groups.len() && crate::data::in_group_order(groups.take(g)).len() <= i
                < crate::data::in_group_order(groups.take(g + 1)).len()
        } by {
            if i < m {
                let g = crate::data::group_numbers(t)[i] as int;
                assert(numbers[i] == g);
                assert(groups.take(g) =~= t.take(g));
                assert(groups.take(g + 1) =~= t.take(g + 1));
            } else {
                assert(numbers[i] == groups.len() - 1);
                assert(groups.take(groups.len() - 1) =~= t);
                assert(groups.take(groups.len() as int) =~= groups);
            }
        }
    }
}

/// Each complete row of the relation is in the model once, with its own values, between the
/// offsets of the group of its own label.
pub proof fn a_row_keeps_its_own_values(
    cfg: Config,
    data: DataView,
    response_sd: Double,
    model: CompiledVaryingVariance,
)
    requires
        built(cfg@, data, response_sd) == Ok::<Read, Fault>(model@),
    ensures
        exists|rows: Seq<usize>, group_of: Seq<usize>|
            holds_the_rows(cfg.entries@, data, model, rows, group_of),
{
    let e = cfg.entries@;
    a_request_is_what_its_options_say(cfg@);
    let asked = Asked::of(cfg@)->Ok_0;
    let columns = asked.columns();
    assert(columns =~= columns_named(e));
    let p = panel_read(cfg@, data)->Ok_0;
    crate::panel::a_panel_puts_each_row_into_its_own_group(data, columns, asked.group, true);
    let rows = p.order();
    let group_of = p.group_of();
    let labels = Seq::new(model.group_keys@.len(), |g: int| model.group_keys@[g]@);
    assert(labels =~= model@.group_keys);
    assert(model@.y == crate::data::gathered(data.column(asked.y)->0, rows));
    assert(model@.x.len() == model.x@.len());
    assert(model.group_keys.len() == model.group_keys@.len());
    assert(model.y.len() == model.y@.len());
    lemma_places(p.groups);
    assert forall|g: int| 0 <= g <= p.groups.len() implies (#[trigger] model.offsets@[g])
        == crate::data::in_group_order(p.groups.take(g)).len() by {
        lemma_offsets_grow(p.groups, g);
    }
    assert(p.groups.take(0) =~= Seq::<Members>::empty());
    assert(p.groups.take(p.groups.len() as int) =~= p.groups);
    assert forall|i: int| 0 <= i < rows.len() implies model.offsets@[(
    #[trigger] group_of[i]) as int] <= i < model.offsets@[group_of[i] + 1] by {}
    let first = if asked.intercept {
        1int
    } else {
        0int
    };
    let x = crate::config::texts_of(e, "x"@);
    if asked.intercept {
        assert(model.x@[0]@ == model@.x[0]);
    }
    assert forall|k: int| #![trigger x[k]] 0 <= k < x.len() implies model.x@[first + k]@
        == Seq::new(
        rows.len(),
        |i: int| data.column(x[k])->0.values@[rows[i] as int],
    ) by {
        assert(model.x@[first + k]@ == model@.x[first + k]);
        assert(model@.x[first + k] == crate::data::gathered(data.column(x[k])->0, rows));
        assert(model.x@[first + k]@ =~= Seq::new(
            rows.len(),
            |i: int| data.column(x[k])->0.values@[rows[i] as int],
        ));
    }
    assert(holds_the_rows(e, data, model, rows, group_of));
}

/// The response whose spread the prior may default to is that of the complete rows, in the
/// order of the relation, and nothing else.
pub proof fn the_response_is_that_of_the_complete_rows(cfg: Config, data: DataView)
    ensures
        response_of(cfg@, data) matches Ok(y) ==> exists|rows: Seq<usize>|
            is_response_of(cfg.entries@, data, y, rows),
{
    if let Ok(y) = response_of(cfg@, data) {
        let e = cfg.entries@;
        a_request_is_what_its_options_say(cfg@);
        let asked = Asked::of(cfg@)->Ok_0;
        let columns = asked.columns();
        assert(columns =~= columns_named(e));
        let p = panel_read(cfg@, data)->Ok_0;
        crate::panel::the_rows_read_are_the_complete_ones(data, columns, seq![asked.group]);
        assert(is_response_of(e, data, y, p.rows));
    }
}

/// Whether numbers are the response in the complete rows, in the order of the relation.
pub open spec fn is_response_of(
    entries: Seq<Entry>,
    data: DataView,
    y: Seq<Double>,
    rows: Seq<usize>,
) -> bool {
    let column = data.column(crate::config::text_of(entries, "y"@)->0)->0.values@;
    &&& crate::panel::each_present_row_once(
        data,
        columns_named(entries),
        seq![crate::config::text_of(entries, "group"@)->0],
        rows,
    )
    &&& forall|i: int, j: int|
        0 <= i < j < rows.len() ==> (#[trigger] rows[i]) < (#[trigger] rows[j])
    &&& y.len() == rows.len()
    &&& forall|i: int| 0 <= i < rows.len() ==> (#[trigger] y[i]) == column[rows[i] as int]
}

/// A model is built exactly when the options and the prior are sound, the columns are there,
/// no label is the reserved one, there is a linear part, and there are more complete rows than
/// its coefficients and the groups together.
pub proof fn a_model_is_built_exactly_when_it_can_be(
    cfg: Config,
    data: DataView,
    response_sd: Double,
    rows: Seq<usize>,
    group_of: Seq<usize>,
    labels: Seq<Seq<char>>,
)
    requires
        crate::panel::each_present_row_once(
            data,
            columns_named(cfg.entries@),
            seq![crate::config::text_of(cfg.entries@, "group"@)->0],
            rows,
        ),
        crate::panel::grouped_by_label(
            data.key_column(crate::config::text_of(cfg.entries@, "group"@)->0)->0,
            rows,
            group_of,
            labels,
        ),
    ensures
        built(cfg@, data, response_sd) is Ok <==> {
            let e = cfg.entries@;
            let group = crate::config::text_of(e, "group"@)->0;
            let names = columns_named(e);
            let linear = crate::config::texts_of(e, "x"@).len() + (if asks_for_intercept(e) {
                1int
            } else {
                0int
            });
            &&& request_is_sound(e)
            &&& forall|c: int| 0 <= c < names.len() ==> data.column(#[trigger] names[c]) is Some
            &&& data.key_column(group) is Some
            &&& forall|i: int|
                0 <= i < rows.len() ==> data.key_column(group)->0.values@[(
                #[trigger] rows[i]) as int]@ != "__global__"@
            &&& crate::config::takes_table(e, "prior"@)
            &&& prior_is_sound(crate::config::table_of(e, "prior"@))
            &&& linear > 0
            &&& rows.len() > linear + labels.len()
        },
{
    let e = cfg.entries@;
    a_request_is_what_its_options_say(cfg@);
    if request_is_sound(e) {
        let asked = Asked::of(cfg@)->Ok_0;
        let columns = asked.columns();
        assert(columns =~= columns_named(e));
        crate::panel::a_panel_is_read_exactly_when_it_can_be(data, columns, asked.group, rows);
        crate::config::a_text_slot_gives_the_text_written(cfg@, "prior"@);
        if let Ok(table) = cfg@.table("prior"@) {
            a_prior_is_what_its_table_says(table, response_sd);
        }
        if let Ok(p) = panel_read(cfg@, data) {
            crate::panel::a_panel_puts_each_row_into_its_own_group(
                data,
                columns,
                asked.group,
                true,
            );
            crate::panel::a_panel_holds_each_row_read_once(
                data,
                columns,
                Some(asked.group),
                true,
            );
            crate::panel::lemma_same_rows_read(
                data,
                columns,
                seq![asked.group],
                rows,
                p.order(),
            );
            crate::panel::lemma_as_many_labels(
                data.key_column(asked.group)->0,
                rows,
                group_of,
                labels,
                p.order(),
                p.group_of(),
                p.keys(),
            );
        }
    }
}

proof fn lemma_informative(groups: Seq<Members>, n: nat)
    requires
        n <= groups.len(),
    ensures
        informative_groups(groups, n) >= 1 <==> exists|g: int|
            0 <= g < n && (#[trigger] groups[g]).rows.len() >= 2,
        informative_groups(groups, n) >= 2 <==> exists|g: int, h: int|
            0 <= g < h < n && (#[trigger] groups[g]).rows.len() >= 2 && (
            #[trigger] groups[h]).rows.len() >= 2,
    decreases n,
{
    if n > 0 {
        let m = (n - 1) as nat;
        lemma_informative(groups, m);
        let last = groups[m as int].rows.len() >= 2;
        if informative_groups(groups, n) >= 1 && last {
            assert(groups[m as int].rows.len() >= 2);
        }
        if informative_groups(groups, m) >= 1 && last {
            let g = choose|g: int| 0 <= g < m && (#[trigger] groups[g]).rows.len() >= 2;
            assert(groups[g].rows.len() >= 2 && groups[m as int].rows.len() >= 2);
        }
        if exists|g: int, h: int|
            0 <= g < h < n && (#[trigger] groups[g]).rows.len() >= 2 && (
            #[trigger] groups[h]).rows.len() >= 2 {
            let (g, h) = choose|g: int, h: int|
                0 <= g < h < n && (#[trigger] groups[g]).rows.len() >= 2 && (
                #[trigger] groups[h]).rows.len() >= 2;
            assert(groups[g].rows.len() >= 2);
        }
    }
}

/// Whether a group of a model has two rows or more.
pub open spec fn has_two_rows(model: CompiledVaryingVariance, g: int) -> bool {
    model.offsets@[g + 1] >= model.offsets@[g] + 2
}

/// A model has the prior that its options say, and the verdict that its groups and its
/// response force: fewer than three groups, or fewer than two of two rows or more, are too
/// few; a response that does not vary is degenerate.
pub proof fn a_model_carries_its_options_and_its_verdict(
    cfg: Config,
    data: DataView,
    response_sd: Double,
    model: CompiledVaryingVariance,
)
    requires
        built(cfg@, data, response_sd) == Ok::<Read, Fault>(model@),
    ensures
        ({
            let e = cfg.entries@;
            let n_groups = model.group_keys@.len();
            let alike = forall|i: int|
                0 <= i < model.y@.len() ==> (#[trigger] model.y@[i]).same_value(model.y@[0]);
            let spread = exists|g: int, h: int|
                0 <= g < h < n_groups && #[trigger] has_two_rows(model, g)
                    && #[trigger] has_two_rows(model, h);
            &&& prior_is_as_written(
                crate::config::table_of(e, "prior"@),
                response_sd,
                model.prior,
            )
            &&& model.readiness.status == if n_groups < 3 || !spread {
                FitStatus::InsufficientData
            } else if alike {
                FitStatus::Degenerate
            } else {
                FitStatus::Converged
            }
        }),
{
    a_request_is_what_its_options_say(cfg@);
    crate::config::a_text_slot_gives_the_text_written(cfg@, "prior"@);
    a_prior_is_what_its_table_says(cfg@.table("prior"@)->Ok_0, response_sd);
    let p = panel_read(cfg@, data)->Ok_0;
    let groups = p.groups;
    assert(model@.group_keys.len() == model.group_keys@.len());
    assert(model.y.len() == model.y@.len());
    assert(model@.readiness == model.readiness@);
    lemma_informative(groups, groups.len());
    assert forall|g: int| 0 <= g < groups.len() implies (#[trigger] has_two_rows(model, g)
        <==> groups[g].rows.len() >= 2) by {
        lemma_offsets_grow(groups, g);
        lemma_offsets_grow(groups, g + 1);
        assert(groups.take(g + 1).drop_last() =~= groups.take(g));
        assert(model.offsets@[g] == crate::data::in_group_order(groups.take(g)).len());
        assert(model.offsets@[g + 1] == crate::data::in_group_order(groups.take(g + 1)).len());
    }
    if informative_groups(groups, groups.len()) >= 2 {
        let (g, h) = choose|g: int, h: int|
            0 <= g < h < groups.len() && (#[trigger] groups[g]).rows.len() >= 2 && (
            #[trigger] groups[h]).rows.len() >= 2;
        assert(has_two_rows(model, g) && has_two_rows(model, h));
    } else if exists|g: int, h: int|
        0 <= g < h < groups.len() && #[trigger] has_two_rows(model, g)
            && #[trigger] has_two_rows(model, h) {
        let (g, h) = choose|g: int, h: int|
            0 <= g < h < groups.len() && #[trigger] has_two_rows(model, g)
                && #[trigger] has_two_rows(model, h);
        assert(groups[g].rows.len() >= 2 && groups[h].rows.len() >= 2);
    }
}

/// Compiles a request against the relation it names, given the spread of its response.
pub fn build(cfg: &Config, data: &DataView, response_sd: Double) -> (r: BayesResult<
    CompiledVaryingVariance,
>)
    requires
        data.wf(),
        cfg@.list_fits("x"@),
    ensures
        crate::errors::outcome(r) == built(cfg@, *data, response_sd),
        r matches Ok(model) ==> model.wf(),
{
    let (request, panel) = read(cfg, data)?;
    let y_column = data.numeric(request.y.as_str())?;
    let x_columns = data.numerics(&request.x)?;
    let table = cfg.root().nested("prior")?;
    let prior = Prior::parse(&table, response_sd)?;
    let n = panel.rows.len();
    let n_groups = panel.groups.len();
    let mut n_fixed: usize = request.x.len();
    if request.intercept {
        n_fixed += 1;
    }
    proof {
        assert(crate::text::texts(panel.keys@).len() == panel.keys@.len());
        assert(panel@.groups.len() == panel.groups@.len());
        assert(request@.x.len() == request.x@.len());
    }
    if n_fixed == 0 {
        return Err(BayesError::config("x", NO_LINEAR_PART));
    }
    if n <= n_fixed + n_groups {
        return Err(BayesError::InsufficientData { rows: n, params: n_fixed + n_groups });
    }
    let y = gather(y_column, &panel.order);
    let mut x: Vec<Vec<Double>> = Vec::new();
    proof {
        assert(crate::data::lists(x@) =~= Seq::<Seq<Double>>::empty());
    }
    if request.intercept {
        x.push(column_of_ones(panel.order.len()));
    }
    proof {
        assert(crate::data::lists(x@) =~= crate::catalog::common::intercept_column(
            request.intercept,
            panel.order@.len(),
        ));
    }
    let ghost first = crate::data::lists(x@);
    let ghost predictors = crate::data::gathered_all(x_columns@, panel.order@);
    push_columns(&mut x, gather_all(&x_columns, &panel.order, data.n_rows));
    let offsets = offsets_of(&panel.groups, data.n_rows);
    let mut params: Vec<ParamName> = Vec::new();
    proof {
        assert(crate::draws::ids(params@) =~= Seq::<ParamId>::empty());
    }
    if request.intercept {
        push_global(&mut params, "intercept");
    }
    proof {
        assert(crate::draws::ids(params@) =~= crate::catalog::common::intercept_ids(request.intercept));
    }
    push_coefficients(&mut params, global_group_key(), &request.x);
    push_global(&mut params, "pool_scale");
    push_global(&mut params, "sigma_pop");
    push_global(&mut params, "sigma_spread");
    push_one_each(&mut params, &panel.keys, "group_effect");
    push_one_each(&mut params, &panel.keys, "sigma");
    let readiness = assess(&y, &panel.groups, request.group.as_str());
    let r = CompiledVaryingVariance {
        params,
        y,
        x,
        offsets,
        group_keys: panel.keys,
        intercept: request.intercept,
        prior,
        readiness,
    };
    proof {
        assert(r@.x == first + predictors);
        assert(predictors =~= Seq::new(
            request@.x.len(),
            |k: int| crate::data::gathered(data.column(request@.x[k])->0, panel@.order()),
        ));
        assert(r@ =~= Read::of(*data, request@, prior, panel@));
        assert(r.x@.len() == crate::data::lists(r.x@).len());
    }
    Ok(r)
}

/// Where each block of coordinates begins.
#[derive(Debug, Clone, Copy)]
pub struct Layout {
    /// The coefficients of the linear part.
    pub fixed: usize,
    /// The non-centred group levels.
    pub z: usize,
    /// The log of the between-group scale.
    pub lt: usize,
    /// The log of the population residual scale.
    pub lsm: usize,
    /// The non-centred log residual scales.
    pub w: usize,
    /// The log of the spread of log residual scales.
    pub lts: usize,
}

impl Layout {
    /// The blocks of a model with `p` coefficients and so many groups: coefficients,
    /// group levels, two scales, group log scales, one scale.
    pub open spec fn spec_of(p: int, n_groups: int) -> Layout {
        Layout {
            fixed: 0,
            z: p as usize,
            lt: (p + n_groups) as usize,
            lsm: (p + n_groups + 1) as usize,
            w: (p + n_groups + 2) as usize,
            lts: (p + 2 * n_groups + 2) as usize,
        }
    }
}

/// Per group, its deviation from the linear part.
pub open spec fn effect_formulas(p: int, n_groups: int) -> Seq<Formula> {
    let l = Layout::spec_of(p, n_groups);
    Seq::new(
        n_groups as nat,
        |g: int| Formula::Scaled { log_scale: l.lt, at: (l.z + g) as usize },
    )
}

/// Per group, its residual scale.
pub open spec fn spread_formulas(p: int, n_groups: int) -> Seq<Formula> {
    let l = Layout::spec_of(p, n_groups);
    Seq::new(
        n_groups as nat,
        |g: int| Formula::ExpSum { base: l.lsm, log_scale: l.lts, at: (l.w + g) as usize },
    )
}

/// How the parameters are computed from the coordinates.
pub open spec fn formulas(p: int, n_groups: int) -> Seq<Formula> {
    let l = Layout::spec_of(p, n_groups);
    crate::formula::coordinates(0, p as nat) + seq![Formula::Exp { at: l.lt }] + seq![
        Formula::Exp { at: l.lsm },
    ] + seq![Formula::Exp { at: l.lts }] + effect_formulas(p, n_groups) + spread_formulas(
        p,
        n_groups,
    )
}

impl CompiledVaryingVariance {
    /// Few enough columns and groups for the coordinates to be numbered.
    pub open spec fn wf(self) -> bool {
        &&& self.group_keys@.len() <= usize::MAX / 4 + 1
        &&& self.x@.len() <= usize::MAX / 4 + 1
    }

    /// The coordinates of the unconstrained vector.
    pub open spec fn spec_dim(self) -> int {
        (self.x@.len() + 2 * self.group_keys@.len() + 3) as int
    }

    pub fn n_obs(&self) -> (r: usize)
        ensures
            r == self.y@.len(),
    {
        self.y.len()
    }

    pub fn n_groups(&self) -> (r: usize)
        ensures
            r == self.group_keys@.len(),
    {
        self.group_keys.len()
    }

    pub fn readiness(&self) -> (r: Readiness)
        ensures
            r@ == self.readiness@,
    {
        self.readiness.clone()
    }

    /// A joint fit cannot single out a group: a verdict implicates all of them.
    pub fn n_groups_unready(&self) -> (r: usize)
        ensures
            r == if self.readiness@.status == FitStatus::Converged {
                0
            } else {
                self.group_keys@.len()
            },
    {
        implicated(self.readiness.status, self.n_groups())
    }

    /// Whether there is no posterior here, so that every draw is absent.
    pub fn refuses(&self) -> (r: bool)
        ensures
            r == self.readiness@.status.refused(),
    {
        self.readiness.status.withholds_draws()
    }

    pub fn has_intercept(&self) -> (r: bool)
        ensures
            r == self.intercept,
    {
        self.intercept
    }

    pub fn layout(&self) -> (r: Layout)
        requires
            self.wf(),
        ensures
            r == Layout::spec_of(self.x@.len() as int, self.group_keys@.len() as int),
    {
        let n_groups = self.n_groups();
        let z: usize = self.x.len();
        let lt: usize = z + n_groups;
        Layout { fixed: 0, z, lt, lsm: lt + 1, w: lt + 2, lts: lt + 2 + n_groups }
    }

    pub fn dim(&self) -> (r: usize)
        requires
            self.wf(),
        ensures
            r == self.spec_dim(),
    {
        self.x.len() + 2 * self.n_groups() + 3
    }

    /// Refuses buffers that do not hold one entry per coordinate.
    pub fn check_gradient_buffers(&self, theta: usize, out: usize) -> (r: BayesResult<()>)
        requires
            self.wf(),
        ensures
            r is Ok <==> theta == self.spec_dim() && out == self.spec_dim(),
            r matches Err(e) ==> e@ == Fault::coordinates(self.spec_dim() as nat, theta, out),
    {
        BayesError::check_coordinates(self.dim(), theta, out)
    }

    /// How each parameter is computed from the coordinates, in the order of the names.
    pub fn constrain(&self) -> (r: Vec<Formula>)
        requires
            self.wf(),
        ensures
            r@ == if self.readiness@.status.refused() {
                crate::formula::repeated(Formula::Absent, self.params@.len())
            } else {
                formulas(self.x@.len() as int, self.group_keys@.len() as int)
            },
    {
        if self.refuses() {
            return absent(self.params.len());
        }
        let l = self.layout();
        let n_groups = self.n_groups();
        let ghost p = self.x@.len() as int;
        let mut out: Vec<Formula> = Vec::new();
        push_coordinates(&mut out, 0, self.x.len());
        out.push(Formula::Exp { at: l.lt });
        out.push(Formula::Exp { at: l.lsm });
        out.push(Formula::Exp { at: l.lts });
        let ghost before = out@;
        let ghost effects = effect_formulas(p, n_groups as int);
        let mut g: usize = 0;
        proof {
            assert(before =~= before + effects.take(0));
        }
        while g < n_groups
            invariant
                self.wf(),
                g <= n_groups,
                n_groups == self.group_keys@.len(),
                p == self.x@.len(),
                l == Layout::spec_of(p, n_groups as int),
                effects == effect_formulas(p, n_groups as int),
                out@ == before + effects.take(g as int),
            decreases n_groups - g,
        {
            out.push(Formula::Scaled { log_scale: l.lt, at: l.z + g });
            g += 1;
            proof {
                assert(out@ =~= before + effects.take(g as int));
            }
        }
        let ghost middle = out@;
        let ghost spreads = spread_formulas(p, n_groups as int);
        let mut g: usize = 0;
        proof {
            assert(effects.take(n_groups as int) =~= effects);
            assert(middle =~= middle + spreads.take(0));
        }
        while g < n_groups
            invariant
                self.wf(),
                g <= n_groups,
                n_groups == self.group_keys@.len(),
                p == self.x@.len(),
                l == Layout::spec_of(p, n_groups as int),
                spreads == spread_formulas(p, n_groups as int),
                out@ == middle + spreads.take(g as int),
            decreases n_groups - g,
        {
            out.push(Formula::ExpSum { base: l.lsm, log_scale: l.lts, at: l.w + g });
            g += 1;
            proof {
                assert(out@ =~= middle + spreads.take(g as int));
            }
        }
        proof {
            assert(spreads.take(n_groups as int) =~= spreads);
            assert(out@ =~= formulas(p, n_groups as int));
        }
        out
    }
}

/// The blocks of coordinates stand one behind the other and fill the vector: no two
/// share a coordinate and none is left over.
pub proof fn the_blocks_fill_the_vector(p: int, n_groups: int)
    requires
        0 <= p,
        0 <= n_groups,
        p + 2 * n_groups + 3 <= usize::MAX,
    ensures
        ({
            let l = Layout::spec_of(p, n_groups);
            &&& l.fixed == 0
            &&& l.fixed + p == l.z
            &&& l.z + n_groups == l.lt
            &&& l.lt + 1 == l.lsm
            &&& l.lsm + 1 == l.w
            &&& l.w + n_groups == l.lts
            &&& l.lts + 1 == p + 2 * n_groups + 3
        }),
{
}

/// Each parameter has its formula: there are as many of them, and every coordinate that
/// one reads is a coordinate of the model.
pub proof fn every_parameter_has_a_formula(
    intercept: bool,
    x: Seq<Seq<char>>,
    keys: Seq<Seq<char>>,
    p: int,
)
    requires
        p == x.len() + if intercept {
            1int
        } else {
            0int
        },
        p + 2 * keys.len() + 3 <= usize::MAX,
    ensures
        formulas(p, keys.len() as int).len() == param_ids(intercept, x, keys).len(),
        forall|i: int|
            0 <= i < formulas(p, keys.len() as int).len() ==> (#[trigger] formulas(
                p,
                keys.len() as int,
            )[i]).reads_within(p + 2 * keys.len() + 3),
{
}

/// Every coordinate of the model is read by some formula: none is sampled in vain.
pub proof fn every_coordinate_is_reported(p: int, n_groups: int, c: int)
    requires
        0 <= p,
        0 <= n_groups,
        p + 2 * n_groups + 3 <= usize::MAX,
        0 <= c < p + 2 * n_groups + 3,
    ensures
        exists|i: int|
            0 <= i < formulas(p, n_groups).len() && (#[trigger] formulas(p, n_groups)[i]).reads(c),
{
    let f = formulas(p, n_groups);
    let l = Layout::spec_of(p, n_groups);
    if c < p {
        assert(f[c].reads(c));
    } else if c < p + n_groups {
        assert(f[p + 3 + (c - p)] == effect_formulas(p, n_groups)[c - p]);
        assert(f[p + 3 + (c - p)].reads(c));
    } else if c == l.lt {
        assert(f[p].reads(c));
    } else if c == l.lsm {
        assert(f[p + 1].reads(c));
    } else if c == l.lts {
        assert(f[p + 2].reads(c));
    } else {
        let g = c - l.w;
        assert(f[p + 3 + n_groups + g] == spread_formulas(p, n_groups)[g]);
        assert(f[p + 3 + n_groups + g].reads(c));
    }
}

/// Every parameter that is a scale is positive by construction.
pub proof fn scales_are_positive_by_construction(
    intercept: bool,
    x: Seq<Seq<char>>,
    keys: Seq<Seq<char>>,
    p: int,
    i: int,
)
    requires
        p == x.len() + if intercept {
            1int
        } else {
            0int
        },
        0 <= i < param_ids(intercept, x, keys).len(),
    ensures
        ({
            let name = param_ids(intercept, x, keys)[i].name;
            name == "pool_scale"@ || name == "sigma_pop"@ || name == "sigma_spread"@ || name
                == "sigma"@ ==> formulas(p, keys.len() as int)[i].sign() == Sign::Positive
        }),
{
    reveal_strlit("intercept");
    reveal_strlit("pool_scale");
    reveal_strlit("sigma_pop");
    reveal_strlit("sigma_spread");
    reveal_strlit("sigma");
    reveal_strlit("group_effect");
    reveal_strlit("beta[");
    let id = param_ids(intercept, x, keys)[i];
    let g = keys.len() as int;
    if i < p {
        if intercept && i == 0 {
            assert(id.name[0] == 'i');
        } else {
            let k = if intercept {
                i - 1
            } else {
                i
            };
            assert(id.name == crate::draws::coefficient_name(x[k]));
            assert(id.name[0] == 'b');
        }
    } else if p + 3 <= i < p + 3 + g {
        assert(id == crate::draws::one_each(keys, "group_effect"@)[i - (p + 3)]);
        assert(id.name[0] == 'g');
    } else if i >= p + 3 + g {
        assert(formulas(p, g)[i] == spread_formulas(p, g)[i - (p + 3 + g)]);
    }
}

/// A response without any variation is degenerate wherever there are groups enough to
/// look at it, and never merely thin; too few groups are reported before it.
pub proof fn a_constant_response_is_refused(
    y: Seq<Double>,
    groups: Seq<Members>,
    group: Seq<char>,
)
    requires
        crate::catalog::common::all_same(y),
    ensures
        assessment(y, groups, group).status != FitStatus::Converged,
        groups.len() >= MIN_GROUPS && informative_groups(groups, groups.len()) >= 2
            ==> assessment(y, groups, group).status == FitStatus::Degenerate,
        groups.len() < MIN_GROUPS ==> assessment(y, groups, group).status
            == FitStatus::InsufficientData,
{
}

/// Whether parameters are named and computed as they should be: the coefficients as they are,
/// the three scales as exponentials, and of each group its deviation and its residual scale.
pub open spec fn named_and_computed(
    intercept: bool,
    x: Seq<Seq<char>>,
    keys: Seq<Seq<char>>,
    ids: Seq<ParamId>,
    f: Seq<Formula>,
) -> bool {
    let first = if intercept {
        1int
    } else {
        0int
    };
    let p = first + x.len();
    let n = keys.len() as int;
    let global = "__global__"@;
    let pool = (p + n) as usize;
    let level = (p + n + 1) as usize;
    let spread = (p + 2 * n + 2) as usize;
    &&& ids.len() == p + 3 + 2 * n
    &&& f.len() == ids.len()
    &&& intercept ==> ids[0] == (ParamId { group: global, name: "intercept"@ })
    &&& forall|k: int|
        #![trigger x[k]]
        0 <= k < x.len() ==> ids[first + k] == (ParamId {
            group: global,
            name: "beta["@ + x[k] + "]"@,
        })
    &&& forall|j: int| 0 <= j < p ==> (#[trigger] f[j]) == (Formula::Coordinate { at: j as usize })
    &&& ids[p] == (ParamId { group: global, name: "pool_scale"@ })
    &&& f[p] == (Formula::Exp { at: pool })
    &&& ids[p + 1] == (ParamId { group: global, name: "sigma_pop"@ })
    &&& f[p + 1] == (Formula::Exp { at: level })
    &&& ids[p + 2] == (ParamId { group: global, name: "sigma_spread"@ })
    &&& f[p + 2] == (Formula::Exp { at: spread })
    &&& forall|g: int|
        #![trigger keys[g]]
        0 <= g < n ==> {
            &&& ids[p + 3 + g] == (ParamId { group: keys[g], name: "group_effect"@ })
            &&& f[p + 3 + g] == (Formula::Scaled { log_scale: pool, at: (p + g) as usize })
            &&& ids[p + 3 + n + g] == (ParamId { group: keys[g], name: "sigma"@ })
            &&& f[p + 3 + n + g] == (Formula::ExpSum {
                base: level,
                log_scale: spread,
                at: (p + n + 2 + g) as usize,
            })
        }
}

proof fn lemma_named_and_computed(intercept: bool, x: Seq<Seq<char>>, keys: Seq<Seq<char>>)
    requires
        x.len() + 2 * keys.len() + 5 <= usize::MAX,
    ensures
        named_and_computed(
            intercept,
            x,
            keys,
            param_ids(intercept, x, keys),
            formulas(
                x.len() + if intercept {
                    1int
                } else {
                    0int
                },
                keys.len() as int,
            ),
        ),
{
    let first = if intercept {
        1int
    } else {
        0int
    };
    let p = first + x.len();
    let n = keys.len() as int;
    let ids = param_ids(intercept, x, keys);
    let f = formulas(p, n);
    assert forall|k: int| #![trigger x[k]] 0 <= k < x.len() implies ids[first + k] == (ParamId {
        group: "__global__"@,
        name: "beta["@ + x[k] + "]"@,
    }) by {
        assert(ids[first + k] == crate::draws::coefficients(crate::types::global_group(), x)[k]);
    }
    assert forall|j: int| 0 <= j < p implies (#[trigger] f[j]) == (Formula::Coordinate {
        at: j as usize,
    }) by {
        assert(f[j] == crate::formula::coordinates(0, p as nat)[j]);
    }
    assert forall|g: int| #![trigger keys[g]] 0 <= g < n implies ids[p + 3 + g] == (ParamId {
        group: keys[g],
        name: "group_effect"@,
    }) && f[p + 3 + g] == (Formula::Scaled {
        log_scale: (p + n) as usize,
        at: (p + g) as usize,
    }) && ids[p + 3 + n + g] == (ParamId { group: keys[g], name: "sigma"@ }) && f[p + 3 + n + g]
        == (Formula::ExpSum {
        base: (p + n + 1) as usize,
        log_scale: (p + 2 * n + 2) as usize,
        at: (p + n + 2 + g) as usize,
    }) by {
        assert(ids[p + 3 + g] == crate::draws::one_each(keys, "group_effect"@)[g]);
        assert(ids[p + 3 + n + g] == crate::draws::one_each(keys, "sigma"@)[g]);
        assert(f[p + 3 + g] == effect_formulas(p, n)[g]);
        assert(f[p + 3 + n + g] == spread_formulas(p, n)[g]);
    }
}

/// Every parameter of a model is reported under its own name and group, and computed from
/// its own coordinates.
pub proof fn a_parameter_is_computed_as_its_name_says(
    cfg: Config,
    data: DataView,
    response_sd: Double,
    model: CompiledVaryingVariance,
)
    requires
        built(cfg@, data, response_sd) == Ok::<Read, Fault>(model@),
        model.wf(),
    ensures
        named_and_computed(
            asks_for_intercept(cfg.entries@),
            crate::config::texts_of(cfg.entries@, "x"@),
            Seq::new(model.group_keys@.len(), |g: int| model.group_keys@[g]@),
            Seq::new(
                model.params@.len(),
                |i: int|
                    ParamId { group: model.params@[i].group_id@, name: model.params@[i].name@ },
            ),
            formulas(model.x@.len() as int, model.group_keys@.len() as int),
        ),
{
    a_request_is_what_its_options_say(cfg@);
    let asked = Asked::of(cfg@)->Ok_0;
    let keys = Seq::new(model.group_keys@.len(), |g: int| model.group_keys@[g]@);
    let ids = Seq::new(
        model.params@.len(),
        |i: int| ParamId { group: model.params@[i].group_id@, name: model.params@[i].name@ },
    );
    assert(model@.x.len() == model.x@.len());
    assert(keys =~= model@.group_keys);
    assert(ids =~= model@.params);
    lemma_named_and_computed(asked.intercept, asked.x, keys);
}

/// What is read for the identity of the data is what a fit is made of: every column that the
/// options name, at every complete row, and nothing else.
pub proof fn the_columns_read_are_the_ones_named(cfg: Config, data: DataView, reading: Reading)
    requires
        reads(cfg@, data) == Ok::<Entries, Fault>(reading@),
    ensures
        crate::reading::holds_the_columns(
            data,
            columns_named(cfg.entries@),
            seq![crate::config::text_of(cfg.entries@, "group"@)->0],
            reading,
        ),
{
    a_request_is_what_its_options_say(cfg@);
    let asked = Asked::of(cfg@)->Ok_0;
    assert(asked.columns() =~= columns_named(cfg.entries@));
    assert(crate::panel::group_columns(Some(asked.group)) =~= seq![crate::config::text_of(cfg.entries@, "group"@)->0]);
    crate::reading::a_reading_holds_the_named_columns(
        data,
        columns_named(cfg.entries@),
        seq![crate::config::text_of(cfg.entries@, "group"@)->0],
        reading,
    );
}

/// A sound request that a relation cannot serve is refused for the first thing that is wrong: a
/// column that is not there, the reserved label, a prior that is not sound, no linear part, or
/// fewer rows than it takes, with both numbers.
pub proof fn a_refusal_says_what_is_wrong(
    cfg: Config,
    data: DataView,
    response_sd: Double,
    rows: Seq<usize>,
    group_of: Seq<usize>,
    labels: Seq<Seq<char>>,
    e: BayesError,
)
    requires
        data.wf(),
        cfg@.list_fits("x"@),
        built(cfg@, data, response_sd) == Err::<Read, Fault>(e@),
        request_is_sound(cfg.entries@),
        crate::panel::each_present_row_once(
            data,
            columns_named(cfg.entries@),
            seq![crate::config::text_of(cfg.entries@, "group"@)->0],
            rows,
        ),
        crate::panel::grouped_by_label(
            data.key_column(crate::config::text_of(cfg.entries@, "group"@)->0)->0,
            rows,
            group_of,
            labels,
        ),
        crate::config::takes_table(cfg.entries@, "prior"@),
        prior_is_sound(crate::config::table_of(cfg.entries@, "prior"@)),
    ensures
        ({
            let entries = cfg.entries@;
            let names = columns_named(entries);
            let group = crate::config::text_of(entries, "group"@)->0;
            let linear = crate::config::texts_of(entries, "x"@).len() + (if asks_for_intercept(
                entries,
            ) {
                1int
            } else {
                0int
            });
            if (exists|c: int| 0 <= c < names.len() && data.column(#[trigger] names[c]) is None)
                || data.key_column(group) is None {
                crate::panel::names_a_missing_column(data, names, seq![group], e)
            } else if exists|i: int|
                0 <= i < rows.len() && data.key_column(group)->0.values@[(
                #[trigger] rows[i]) as int]@ == "__global__"@ {
                crate::catalog::common::refuses(e, "group"@)
            } else if linear == 0 {
                crate::catalog::common::refuses(e, "x"@)
            } else {
                e matches BayesError::InsufficientData { rows: n, params } && n == rows.len()
                    && params == linear + labels.len()
            }
        }),
{
    let entries = cfg.entries@;
    a_request_is_what_its_options_say(cfg@);
    let asked = Asked::of(cfg@)->Ok_0;
    let columns = asked.columns();
    assert(columns =~= columns_named(entries));
    let keys = seq![asked.group];
    assert(crate::panel::group_columns(Some(asked.group)) =~= keys);
    assert(keys[0] == asked.group);
    crate::panel::the_rows_read_are_the_complete_ones(data, columns, keys);
    crate::panel::a_panel_is_read_exactly_when_it_can_be(data, columns, asked.group, rows);
    crate::errors::an_error_says_what_it_holds(e);
    crate::config::a_text_slot_gives_the_text_written(cfg@, "prior"@);
    a_prior_is_what_its_table_says(cfg@.table("prior"@)->Ok_0, response_sd);
    match panel_read(cfg@, data) {
        Err(f) => {
            crate::panel::a_panel_is_refused_for_what_is_missing(
                data,
                columns,
                Some(asked.group),
                true,
                e,
            );
            if data.usable(columns, keys) is Ok {
                assert(data.key_column(keys[0]) is Some);
            }
        },
        Ok(p) => {
            crate::panel::a_panel_puts_each_row_into_its_own_group(
                data,
                columns,
                asked.group,
                true,
            );
            crate::panel::a_panel_holds_each_row_read_once(
                data,
                columns,
                Some(asked.group),
                true,
            );
            crate::data::usable_rows_are_no_more_than_rows(data, columns, keys);
            crate::panel::lemma_same_rows_read(data, columns, keys, rows, p.order());
            let column = data.key_column(asked.group)->0;
            crate::panel::lemma_as_many_labels(
                column,
                rows,
                group_of,
                labels,
                p.order(),
                p.group_of(),
                p.keys(),
            );
            crate::data::no_more_groups_than_rows(column, p.rows);
        },
    }
}

/// Whether a slot of the options is at fault: it is not known, or what is written in it may not
/// stand there, or the prior is not sound.
pub open spec fn is_at_fault(entries: Seq<Entry>, slot: Seq<char>) -> bool {
    ||| exists|i: int|
        0 <= i < entries.len() && slot == (#[trigger] entries[i]).name@ && !seq![
            "y"@,
            "x"@,
            "intercept"@,
            "group"@,
            "prior"@,
            "draws"@,
            "chains"@,
            "warmup"@,
            "max_draw_megabytes"@,
            "seed"@,
            "engine"@,
            "sample_from"@,
        ].contains(slot)
    ||| slot == "y"@ && (crate::config::text_of(entries, "y"@) is None)
    ||| slot == "x"@ && (!crate::config::takes_texts(entries, "x"@))
    ||| slot == "intercept"@ && (!crate::config::takes_number(entries, "intercept"@))
    ||| slot == "group"@ && (crate::config::text_of(entries, "group"@) is None)
    ||| slot == "sample_from"@ && (!crate::config::takes_text(entries, "sample_from"@)
        || crate::config::text_of(entries, "sample_from"@) == Some("prior"@))
    ||| false
}

/// A request that is refused for its options names a slot that is at fault.
#[verifier::rlimit(40)]
pub proof fn the_slot_that_is_named_is_at_fault(cfg: Config)
    ensures
        Asked::of(cfg@) matches Err(f) ==> (f matches Fault::Config { slot, .. } && is_at_fault(
            cfg.entries@,
            slot,
        )),
{
    let entries = cfg.entries@;
    let known = crate::text::words(SLOTS@);
    assert(known =~= seq![
        "y"@,
        "x"@,
        "intercept"@,
        "group"@,
        "prior"@,
        "draws"@,
        "chains"@,
        "warmup"@,
        "max_draw_megabytes"@,
        "seed"@,
        "engine"@,
        "sample_from"@,
    ]);
    crate::config::an_unknown_slot_is_named_by_its_path(cfg@, known);
    assert forall|name: Seq<char>| #[trigger] (Seq::<char>::empty() + name) == name by {
        assert(Seq::<char>::empty() + name =~= name);
    }
    crate::config::a_text_slot_gives_the_text_written(cfg@, "y"@);
    crate::config::a_refused_slot_is_named_by_its_path(
        cfg@,
        "y"@,
        Double { bits: 0 },
        0,
        1,
        0,
        Seq::empty(),
        "y"@,
    );
    crate::config::a_text_slot_gives_the_text_written(cfg@, "x"@);
    crate::config::a_refused_slot_is_named_by_its_path(
        cfg@,
        "x"@,
        Double { bits: 0 },
        0,
        1,
        0,
        Seq::empty(),
        "x"@,
    );
    crate::config::a_number_slot_gives_the_number_written(
        cfg@,
        "intercept"@,
        Double { bits: 0x3FF0_0000_0000_0000 },
    );
    crate::config::a_refused_slot_is_named_by_its_path(
        cfg@,
        "intercept"@,
        Double { bits: 0x3FF0_0000_0000_0000 },
        0,
        1,
        0,
        Seq::empty(),
        "intercept"@,
    );
    crate::config::a_text_slot_gives_the_text_written(cfg@, "group"@);
    crate::config::a_refused_slot_is_named_by_its_path(
        cfg@,
        "group"@,
        Double { bits: 0 },
        0,
        1,
        0,
        Seq::empty(),
        "group"@,
    );
    crate::config::an_engine_and_a_source_are_asked_for_by_name(cfg@);
    crate::config::a_refused_slot_is_named_by_its_path(
        cfg@,
        "sample_from"@,
        Double { bits: 0 },
        0,
        1,
        0,
        Seq::empty(),
        "sample_from"@,
    );
    crate::config::a_text_slot_gives_the_text_written(cfg@, "prior"@);
}

impl VaryingVarianceGaussian {
    pub fn id(&self) -> (r: &'static str)
        ensures
            r@ == ID@,
    {
        ID
    }

    pub fn code(&self) -> (r: FamilyCode)
        ensures
            r == FamilyCode::VaryingVarianceGaussian,
    {
        FamilyCode::VaryingVarianceGaussian
    }

    pub fn description(&self) -> (r: &'static str)
        ensures
            r@ == DESCRIPTION@,
    {
        DESCRIPTION
    }

    pub fn default_engine(&self) -> (r: EngineKind)
        ensures
            r == EngineKind::Nuts,
    {
        EngineKind::Nuts
    }

    pub fn config_slots(&self) -> (r: [&'static str; 12])
        ensures
            r == SLOTS,
    {
        SLOTS
    }

    /// Compiles a request against the relation it names, given the spread of its response.
    pub fn compile(&self, cfg: &Config, data: &DataView, response_sd: Double) -> (r: BayesResult<
        CompiledVaryingVariance,
    >)
        requires
            data.wf(),
            cfg@.list_fits("x"@),
        ensures
            crate::errors::outcome(r) == built(cfg@, *data, response_sd),
            r matches Ok(model) ==> model.wf(),
    {
        build(cfg, data, response_sd)
    }

    /// The columns and rows that a fit of this request reads: what the fingerprint of its
    /// data is taken of.
    pub fn reading(&self, cfg: &Config, data: &DataView) -> (r: BayesResult<Reading>)
        requires
            data.wf(),
        ensures
            crate::errors::outcome(r) == reads(cfg@, *data),
    {
        let request = Request::parse(cfg)?;
        read_columns(data, request.list_columns(), &Some(request.group))
    }
}

} // verus!
