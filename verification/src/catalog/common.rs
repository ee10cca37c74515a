//! What several families share: verdicts on the model as a whole, and the formulas of a
//! pooled level.
use crate::data::NumericColumn;
use crate::double::Double;
use crate::draws::ParamId;
use crate::errors::{BayesError, Fault, Message, Part};
use crate::formula::Formula;
use crate::readiness::{Readiness, Verdict};
use crate::text::{decimal, push_text, push_texts};
use crate::types::FitStatus;
use vstd::prelude::*;

verus! {

/// The refusal of a family that draws from its posterior alone.
pub const PRIOR_DRAW_REFUSAL: &'static str =
    "this family has no closed-form prior draw; a prior-predictive check needs \
     the exact engine, which no non-conjugate family offers";

/// The numbers of an optional list.
pub open spec fn list_of(list: Option<Vec<Double>>) -> Option<Seq<Double>> {
    match list {
        Some(v) => Some(v@),
        None => None,
    }
}

/// The column behind an optional reference.
pub open spec fn column_of(column: Option<&NumericColumn>) -> Option<NumericColumn> {
    match column {
        Some(c) => Some(*c),
        None => None,
    }
}

/// The name of the response, then those of the predictors.
pub fn named_columns(response: &str, predictors: &Vec<String>) -> (r: Vec<String>)
    ensures
        crate::text::texts(r@) == seq![response@] + crate::text::texts(predictors@),
{
    let mut names: Vec<String> = Vec::new();
    proof {
        assert(crate::text::texts(names@) =~= Seq::<Seq<char>>::empty());
    }
    push_text(&mut names, response);
    push_texts(&mut names, predictors);
    proof {
        assert(crate::text::texts(names@) =~= seq![response@] + crate::text::texts(predictors@));
    }
    names
}

/// The verdict of an optional readiness.
pub open spec fn verdict_of(structural: Option<Readiness>) -> Option<Verdict> {
    match structural {
        Some(r) => Some(r@),
        None => None,
    }
}

/// The verdict on a model whose data forces none unless `structural` says so.
pub open spec fn verdict_or_ready(structural: Option<Readiness>) -> Verdict {
    match structural {
        Some(r) => r@,
        None => Verdict::ready(),
    }
}

/// The verdict on a model whose data forces none unless `structural` says so.
pub fn readiness_of(structural: &Option<Readiness>) -> (r: Readiness)
    ensures
        r@ == verdict_or_ready(*structural),
{
    match structural {
        Some(r) => r.clone(),
        None => Readiness::ready(),
    }
}

/// The status on a model whose data forces none unless `structural` says so.
pub fn status_of(structural: &Option<Readiness>) -> (r: FitStatus)
    ensures
        r == verdict_or_ready(*structural).status,
{
    match structural {
        Some(r) => r.status,
        None => FitStatus::Converged,
    }
}

/// Whether every number is zero.
pub open spec fn all_zero(y: Seq<Double>) -> bool {
    forall|i: int| 0 <= i < y.len() ==> (#[trigger] y[i]).same_value(Double { bits: 0 })
}

/// Whether every number equals the first.
pub open spec fn all_same(y: Seq<Double>) -> bool {
    forall|i: int| 0 <= i < y.len() ==> (#[trigger] y[i]).same_value(y[0])
}

/// Whether every number of a list equals a given one.
fn every_is(y: &Vec<Double>, v: Double) -> (r: bool)
    ensures
        r == forall|i: int| 0 <= i < y@.len() ==> (#[trigger] y@[i]).same_value(v),
{
    let mut k: usize = 0;
    while k < y.len()
        invariant
            k <= y@.len(),
            forall|i: int| 0 <= i < k ==> (#[trigger] y@[i]).same_value(v),
        decreases y@.len() - k,
    {
        if !y[k].equals(v) {
            proof {
                assert(!y@[k as int].same_value(v));
            }
            return false;
        }
        k += 1;
    }
    true
}

/// Whether every number is zero.
pub fn every_zero(y: &Vec<Double>) -> (r: bool)
    ensures
        r == all_zero(y@),
{
    every_is(y, Double::zero())
}

/// Whether every number equals the first.
pub fn every_same(y: &Vec<Double>) -> (r: bool)
    ensures
        r == all_same(y@),
{
    if y.len() == 0 {
        return true;
    }
    every_is(y, y[0])
}

/// The verdict on a panel with fewer groups than the least number asked for.
pub open spec fn few_groups_verdict(n_groups: nat, least: usize, why: Seq<char>) -> Verdict {
    Verdict::because(
        FitStatus::InsufficientData,
        Message::saying(
            crate::text::numeral(n_groups) + " group(s) is below the min_groups threshold of "@
                + crate::text::numeral(least as nat) + why,
        ),
    )
}

/// The verdict on a panel with fewer groups than the least number asked for.
pub fn few_groups(n_groups: usize, least: usize, why: &str) -> (r: Readiness)
    ensures
        r@ == few_groups_verdict(n_groups as nat, least, why@),
{
    Readiness::insufficient(
        Message::of(
            decimal(n_groups).concat(" group(s) is below the min_groups threshold of ").concat(
                decimal(least).as_str(),
            ).concat(why),
        ),
    )
}

/// How many groups are implicated by a verdict on the model as a whole: all of them, or
/// none.
pub fn implicated(status: FitStatus, n_groups: usize) -> (r: usize)
    ensures
        r == if status == FitStatus::Converged {
            0
        } else {
            n_groups
        },
{
    if status.is_actionable() {
        0
    } else {
        n_groups
    }
}

/// Per group, its offset from the population level and then the level itself, on the
/// natural scale, where the offsets start at coordinate `first`.
pub open spec fn level_pairs(log_scale: int, first: int, n_groups: int) -> Seq<Formula> {
    Seq::new(
        (2 * n_groups) as nat,
        |i: int|
            if i % 2 == 0 {
                Formula::Scaled { log_scale: log_scale as usize, at: (first + i / 2) as usize }
            } else {
                Formula::ExpSum {
                    base: 0,
                    log_scale: log_scale as usize,
                    at: (first + i / 2) as usize,
                }
            },
    )
}

/// Appends the formulas of the groups' levels.
pub fn push_level_pairs(out: &mut Vec<Formula>, log_scale: usize, first: usize, n_groups: usize)
    requires
        first + n_groups <= usize::MAX,
    ensures
        final(out)@ == old(out)@ + level_pairs(log_scale as int, first as int, n_groups as int),
{
    let ghost before = out@;
    let ghost pairs = level_pairs(log_scale as int, first as int, n_groups as int);
    let mut j: usize = 0;
    proof {
        assert(before =~= before + pairs.take(0));
    }
    while j < n_groups
        invariant
            j <= n_groups,
            first + n_groups <= usize::MAX,
            pairs == level_pairs(log_scale as int, first as int, n_groups as int),
            out@ == before + pairs.take(2 * j),
        decreases n_groups - j,
    {
        out.push(Formula::Scaled { log_scale, at: first + j });
        out.push(Formula::ExpSum { base: 0, log_scale, at: first + j });
        proof {
            assert((2 * j) / 2 == j && (2 * j + 1) / 2 == j);
            assert(out@ =~= before + pairs.take(2 * (j + 1)));
        }
        j += 1;
    }
    proof {
        assert(pairs.take(2 * j) =~= pairs);
    }
}

/// Whether an error refuses a slot and shows a number.
pub open spec fn shows(e: BayesError, at: Seq<char>, value: Double) -> bool {
    e matches BayesError::Config { slot, message } && slot@ == at && message.parts@.len() >= 2
        && message.parts@[1] == Part::Number(value)
}

/// Whether an error refuses a slot.
pub open spec fn refuses(e: BayesError, at: Seq<char>) -> bool {
    e matches BayesError::Config { slot, .. } && slot@ == at
}

/// An error that says a sentence with a number in it shows the number.
pub proof fn lemma_shows(e: BayesError, at: Seq<char>)
    requires
        e@ matches Fault::Config { slot, message } && slot == at && message.len() >= 2
            && message[1] is Number,
    ensures
        shows(e, at, e@->message[1]->Number_0),
{
    crate::errors::an_error_says_what_it_holds(e);
    if let BayesError::Config { slot, message } = e {
        assert(message.parts@[1] == message.parts@[1]);
    }
}

/// The bits of 1.
pub const ONE_BITS: u64 = 0x3FF0_0000_0000_0000;

/// A column of ones.
pub open spec fn ones(n: nat) -> Seq<Double> {
    Seq::new(n, |i: int| Double { bits: ONE_BITS })
}

/// The column that is one in the rows of a group and zero elsewhere.
pub open spec fn indicator(group_of: Seq<usize>, group: int) -> Seq<Double> {
    Seq::new(
        group_of.len(),
        |i: int|
            if group_of[i] == group {
                Double { bits: ONE_BITS }
            } else {
                Double { bits: 0 }
            },
    )
}

/// The intercept's column, where there is one.
pub open spec fn intercept_column(intercept: bool, n: nat) -> Seq<Seq<Double>> {
    if intercept {
        seq![ones(n)]
    } else {
        Seq::empty()
    }
}

/// A column of ones.
pub fn column_of_ones(n: usize) -> (r: Vec<Double>)
    ensures
        r@ == ones(n as nat),
{
    let mut out: Vec<Double> = Vec::new();
    let mut k: usize = 0;
    while k < n
        invariant
            k <= n,
            out@ == ones(k as nat),
        decreases n - k,
    {
        out.push(Double { bits: ONE_BITS });
        k += 1;
        proof {
            assert(out@ =~= ones(k as nat));
        }
    }
    out
}

/// The column that is one in the rows of a group and zero elsewhere.
pub fn column_of_group(group_of: &Vec<usize>, group: usize) -> (r: Vec<Double>)
    ensures
        r@ == indicator(group_of@, group as int),
{
    let mut out: Vec<Double> = Vec::new();
    let mut k: usize = 0;
    while k < group_of.len()
        invariant
            k <= group_of@.len(),
            out@ == indicator(group_of@, group as int).take(k as int),
        decreases group_of@.len() - k,
    {
        if group_of[k] == group {
            out.push(Double { bits: ONE_BITS });
        } else {
            out.push(Double { bits: 0 });
        }
        k += 1;
        proof {
            assert(out@ =~= indicator(group_of@, group as int).take(k as int));
        }
    }
    proof {
        assert(out@ =~= indicator(group_of@, group as int));
    }
    out
}

/// Appends columns to a design.
pub fn push_columns(out: &mut Vec<Vec<Double>>, more: Vec<Vec<Double>>)
    ensures
        crate::data::lists(final(out)@) == crate::data::lists(old(out)@) + crate::data::lists(
            more@,
        ),
{
    let ghost before = out@;
    let ghost added = more@;
    let mut more = more;
    out.append(&mut more);
    proof {
        assert(out@ =~= before + added);
        assert(crate::data::lists(out@) =~= crate::data::lists(before) + crate::data::lists(
            added,
        ));
    }
}

/// The intercept, where there is one.
pub open spec fn intercept_ids(intercept: bool) -> Seq<ParamId> {
    if intercept {
        seq![ParamId::global("intercept"@)]
    } else {
        Seq::empty()
    }
}

/// The bits of 30: a coordinate on the log scale that lies further from zero is refused
/// rather than explored. A scale that large or that small is none that anyone holds, but a
/// search that has run away.
pub const LOG_BOX_BITS: u64 = 0x403E_0000_0000_0000;

/// Whether a coordinate on the log scale is a number and lies within the bound.
pub open spec fn in_box(v: Double) -> bool {
    v.finite() && v.scaled_magnitude() <= (Double { bits: LOG_BOX_BITS }).scaled()
}

/// Whether a number lies from minus thirty to thirty.
pub open spec fn within_thirty(v: Double) -> bool {
    v.finite() && -30 * crate::double::one_scaled() <= v.scaled() <= 30
        * crate::double::one_scaled()
}

/// A coordinate on the log scale lies within the bound exactly when it is a number from minus
/// thirty to thirty.
pub proof fn the_bound_is_thirty_either_way(v: Double)
    ensures
        in_box(v) <==> within_thirty(v),
{
    let bound = Double { bits: 0x403E_0000_0000_0000 };
    assert(bound.exponent() == 1027 && bound.fraction() == 0xE_0000_0000_0000);
    vstd::arithmetic::power2::lemma2_to64();
    vstd::arithmetic::power2::lemma2_to64_rest();
    crate::double::a_shifted_whole_number_is_itself(bound, 30, 48);
    crate::double::a_magnitude_is_never_negative(v);
}

/// Whether a coordinate on the log scale is a number and lies within the bound.
pub fn is_in_box(v: Double) -> (r: bool)
    ensures
        r == in_box(v),
{
    let bound = Double { bits: LOG_BOX_BITS };
    proof {
        assert(!bound.nan());
        assert(v.finite() ==> !v.nan());
    }
    v.is_finite() && v.abs().at_most(bound)
}

/// Whether the first `n` numbers of a list are finite.
pub open spec fn finite_until(s: Seq<Double>, n: int) -> bool {
    forall|i: int| 0 <= i < n ==> (#[trigger] s[i]).finite()
}

/// Whether all numbers of a list are finite.
pub open spec fn all_finite(s: Seq<Double>) -> bool {
    finite_until(s, s.len() as int)
}

/// Whether the first `n` numbers of a list are finite.
pub fn are_finite_until(s: &Vec<Double>, n: usize) -> (r: bool)
    requires
        n <= s@.len(),
    ensures
        r == finite_until(s@, n as int),
{
    let mut k: usize = 0;
    while k < n
        invariant
            k <= n <= s@.len(),
            forall|i: int| 0 <= i < k ==> (#[trigger] s@[i]).finite(),
        decreases n - k,
    {
        if !s[k].is_finite() {
            proof {
                assert(!s@[k as int].finite());
            }
            return false;
        }
        k += 1;
    }
    true
}

} // verus!
