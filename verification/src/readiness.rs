//! Verdicts on a fit, and how the verdicts on its groups collapse into one.
use crate::errors::{Message, Piece};
use crate::types::FitStatus;
use vstd::prelude::*;

verus! {

/// A status and the reasons for it.
#[derive(Debug)]
pub struct Readiness {
    pub status: FitStatus,
    pub reasons: Vec<Message>,
}

/// What a [`Readiness`] says.
#[verifier::ext_equal]
pub struct Verdict {
    pub status: FitStatus,
    pub reasons: Seq<Seq<Piece>>,
}

/// The sentences that a sequence of messages holds.
pub open spec fn sentences(s: Seq<Message>) -> Seq<Seq<Piece>> {
    Seq::new(s.len(), |i: int| s[i]@)
}

impl View for Readiness {
    type V = Verdict;

    open spec fn view(&self) -> Verdict {
        Verdict { status: self.status, reasons: sentences(self.reasons@) }
    }
}

/// The verdicts that a sequence of them holds.
pub open spec fn verdicts(s: Seq<Readiness>) -> Seq<Verdict> {
    Seq::new(s.len(), |i: int| s[i]@)
}

impl Verdict {
    /// Nothing stands in the way.
    pub open spec fn ready() -> Verdict {
        Verdict { status: FitStatus::Converged, reasons: Seq::empty() }
    }

    /// One status with one reason.
    pub open spec fn because(status: FitStatus, reason: Seq<Piece>) -> Verdict {
        Verdict { status, reasons: seq![reason] }
    }
}

/// The worst of several statuses; `Converged` where there is none.
pub open spec fn worst_status(s: Seq<Verdict>) -> FitStatus
    decreases s.len(),
{
    if s.len() == 0 {
        FitStatus::Converged
    } else {
        let before = worst_status(s.drop_last());
        if s.last().status.spec_rank() > before.spec_rank() {
            s.last().status
        } else {
            before
        }
    }
}

/// The reasons of several verdicts, in order.
pub open spec fn all_reasons(s: Seq<Verdict>) -> Seq<Seq<Piece>>
    decreases s.len(),
{
    if s.len() == 0 {
        Seq::empty()
    } else {
        all_reasons(s.drop_last()) + s.last().reasons
    }
}

/// Several verdicts collapsed into one: the worst status, with every reason.
pub open spec fn worst_verdict(s: Seq<Verdict>) -> Verdict {
    Verdict { status: worst_status(s), reasons: all_reasons(s) }
}

/// How many verdicts do not allow acting.
pub open spec fn unready_count(s: Seq<Verdict>) -> nat
    decreases s.len(),
{
    if s.len() == 0 {
        0
    } else {
        unready_count(s.drop_last()) + if s.last().status == FitStatus::Converged {
            0nat
        } else {
            1nat
        }
    }
}

/// Whether every verdict allows acting.
pub open spec fn all_ready(s: Seq<Verdict>) -> bool {
    forall|i: int| 0 <= i < s.len() ==> (#[trigger] s[i]).status == FitStatus::Converged
}

/// The collapsed status is that of one of the verdicts, or `Converged` where there is
/// none, and outranks every one of them.
pub proof fn worst_wins(s: Seq<Verdict>)
    ensures
        forall|i: int|
            0 <= i < s.len() ==> (#[trigger] s[i]).status.spec_rank() <= worst_status(
                s,
            ).spec_rank(),
        worst_status(s) != FitStatus::Converged ==> exists|i: int|
            0 <= i < s.len() && (#[trigger] s[i]).status == worst_status(s),
    decreases s.len(),
{
    if s.len() > 0 {
        let t = s.drop_last();
        worst_wins(t);
        assert forall|i: int| 0 <= i < s.len() implies (#[trigger] s[i]).status.spec_rank()
            <= worst_status(s).spec_rank() by {
            if i < t.len() {
                assert(t[i] == s[i]);
            }
        }
        if worst_status(s) != FitStatus::Converged {
            if worst_status(s) == worst_status(t) {
                let i = choose|i: int| 0 <= i < t.len() && (#[trigger] t[i]).status == worst_status(t);
                assert(s[i].status == worst_status(s));
            } else {
                assert(s[s.len() - 1].status == worst_status(s));
            }
        }
    }
}

/// A fit collapsed over its groups may be acted on exactly when every group may, and
/// that is when no group is counted as unready.
pub proof fn actionable_only_when_every_group_is(s: Seq<Verdict>)
    ensures
        worst_status(s) == FitStatus::Converged <==> all_ready(s),
        unready_count(s) == 0 <==> all_ready(s),
        unready_count(s) <= s.len(),
    decreases s.len(),
{
    if s.len() > 0 {
        let t = s.drop_last();
        actionable_only_when_every_group_is(t);
        if all_ready(s) {
            assert forall|i: int| 0 <= i < t.len() implies (#[trigger] t[i]).status
                == FitStatus::Converged by {
                assert(t[i] == s[i]);
            }
        } else if all_ready(t) {
            assert forall|i: int| 0 <= i < s.len() && i < s.len() - 1 implies (
            #[trigger] s[i]).status == FitStatus::Converged by {
                assert(t[i] == s[i]);
            }
            assert(s[s.len() - 1].status != FitStatus::Converged);
        } else {
            let i = choose|i: int|
                0 <= i < t.len() && (#[trigger] t[i]).status != FitStatus::Converged;
            assert(s[i].status != FitStatus::Converged);
        }
    }
}

/// A failed group makes the whole fit failed, whatever the others say.
pub proof fn failed_outranks_every_other_verdict(s: Seq<Verdict>, i: int)
    requires
        0 <= i < s.len(),
        s[i].status == FitStatus::Failed,
    ensures
        worst_verdict(s).status == FitStatus::Failed,
{
    worst_wins(s);
    assert(s[i].status.spec_rank() <= worst_status(s).spec_rank());
}

/// Every reason of every group is still there once the verdicts are collapsed.
pub proof fn no_reason_is_lost(s: Seq<Verdict>, i: int, j: int)
    requires
        0 <= i < s.len(),
        0 <= j < s[i].reasons.len(),
    ensures
        worst_verdict(s).reasons.contains(s[i].reasons[j]),
    decreases s.len(),
{
    let t = s.drop_last();
    let all = all_reasons(s);
    if i == s.len() - 1 {
        assert(all[all_reasons(t).len() + j] == s[i].reasons[j]);
    } else {
        assert(t[i] == s[i]);
        no_reason_is_lost(t, i, j);
        let k = choose|k: int|
            0 <= k < all_reasons(t).len() && all_reasons(t)[k] == s[i].reasons[j];
        assert(all[k] == s[i].reasons[j]);
    }
}

/// Verdicts are collapsed in order: those of two lists as those of one after the other, one
/// verdict into itself, and none into a ready one.
pub proof fn verdicts_are_collapsed_in_order(a: Seq<Verdict>, b: Seq<Verdict>, v: Verdict)
    ensures
        worst_verdict(Seq::empty()).status == FitStatus::Converged,
        worst_verdict(Seq::empty()).reasons.len() == 0,
        worst_verdict(seq![v]).status == v.status,
        worst_verdict(seq![v]).reasons == v.reasons,
        worst_verdict(a + b).reasons == worst_verdict(a).reasons + worst_verdict(b).reasons,
        unready_count(Seq::empty()) == 0,
        unready_count(seq![v]) == if v.status == FitStatus::Converged {
            0nat
        } else {
            1nat
        },
        unready_count(a + b) == unready_count(a) + unready_count(b),
    decreases b.len(),
{
    let one = seq![v];
    assert(one.len() == 1 && one.last() == v);
    assert(one.drop_last() =~= Seq::<Verdict>::empty());
    assert(unready_count(one.drop_last()) == 0);
    assert(worst_status(one.drop_last()) == FitStatus::Converged);
    assert(all_reasons(one) =~= v.reasons);
    if b.len() == 0 {
        assert(a + b =~= a);
        assert(all_reasons(a) + all_reasons(b) =~= all_reasons(a));
    } else {
        let t = b.drop_last();
        verdicts_are_collapsed_in_order(a, t, v);
        assert((a + b).drop_last() =~= a + t);
        assert((a + b).last() == b.last());
        assert(all_reasons(a + b) =~= all_reasons(a) + all_reasons(b));
    }
}

/// The status of several verdicts is the worst among them: failed where one is, else
/// insufficient where one is, else degenerate where one is, and converged where all are.
pub proof fn the_worst_status_among_several_wins(s: Seq<Verdict>)
    ensures
        ({
            let some = |status: FitStatus|
                exists|i: int| 0 <= i < s.len() && (#[trigger] s[i]).status == status;
            worst_verdict(s).status == if some(FitStatus::Failed) {
                FitStatus::Failed
            } else if some(FitStatus::InsufficientData) {
                FitStatus::InsufficientData
            } else if some(FitStatus::Degenerate) {
                FitStatus::Degenerate
            } else {
                FitStatus::Converged
            }
        }),
{
    worst_wins(s);
    let worst = worst_status(s);
    if exists|i: int| 0 <= i < s.len() && (#[trigger] s[i]).status == FitStatus::Failed {
        let i = choose|i: int| 0 <= i < s.len() && (#[trigger] s[i]).status == FitStatus::Failed;
        assert(s[i].status.spec_rank() <= worst.spec_rank());
    } else if exists|i: int|
        0 <= i < s.len() && (#[trigger] s[i]).status == FitStatus::InsufficientData {
        let i = choose|i: int|
            0 <= i < s.len() && (#[trigger] s[i]).status == FitStatus::InsufficientData;
        assert(s[i].status.spec_rank() <= worst.spec_rank());
    } else if exists|i: int| 0 <= i < s.len() && (#[trigger] s[i]).status == FitStatus::Degenerate {
        let i = choose|i: int|
            0 <= i < s.len() && (#[trigger] s[i]).status == FitStatus::Degenerate;
        assert(s[i].status.spec_rank() <= worst.spec_rank());
    }
    if worst != FitStatus::Converged {
        let i = choose|i: int| 0 <= i < s.len() && (#[trigger] s[i]).status == worst;
        assert(s[i].status == worst);
    }
}

impl Readiness {
    /// Nothing stands in the way.
    pub fn ready() -> (r: Readiness)
        ensures
            r@ == Verdict::ready(),
    {
        let r = Readiness { status: FitStatus::Converged, reasons: Vec::new() };
        proof {
            assert(r@ =~= Verdict::ready());
        }
        r
    }

    fn one(status: FitStatus, reason: Message) -> (r: Readiness)
        ensures
            r@ == Verdict::because(status, reason@),
    {
        let mut reasons: Vec<Message> = Vec::new();
        reasons.push(reason);
        let r = Readiness { status, reasons };
        proof {
            assert(r@ =~= Verdict::because(status, reason@));
        }
        r
    }

    /// The model is not identified by this data.
    pub fn degenerate(reason: Message) -> (r: Readiness)
        ensures
            r@ == Verdict::because(FitStatus::Degenerate, reason@),
    {
        Readiness::one(FitStatus::Degenerate, reason)
    }

    /// The evidence is too thin.
    pub fn insufficient(reason: Message) -> (r: Readiness)
        ensures
            r@ == Verdict::because(FitStatus::InsufficientData, reason@),
    {
        Readiness::one(FitStatus::InsufficientData, reason)
    }

    /// There is no posterior at all.
    pub fn failed(reason: Message) -> (r: Readiness)
        ensures
            r@ == Verdict::because(FitStatus::Failed, reason@),
    {
        Readiness::one(FitStatus::Failed, reason)
    }

    fn append_reasons(reasons: &mut Vec<Message>, more: &Vec<Message>)
        ensures
            sentences(final(reasons)@) == sentences(old(reasons)@) + sentences(more@),
    {
        let mut k: usize = 0;
        let ghost before = reasons@;
        while k < more.len()
            invariant
                k <= more@.len(),
                reasons@.len() == before.len() + k,
                forall|i: int| 0 <= i < before.len() ==> (#[trigger] reasons@[i])@ == before[i]@,
                forall|i: int|
                    0 <= i < k ==> (#[trigger] more@[i])@ == reasons@[before.len() + i]@,
            decreases more@.len() - k,
        {
            reasons.push(more[k].clone());
            k += 1;
        }
        proof {
            let a = sentences(reasons@);
            let b = sentences(before) + sentences(more@);
            assert forall|i: int| 0 <= i < a.len() implies a[i] == b[i] by {
                if i >= before.len() {
                    assert(more@[i - before.len()]@ == reasons@[before.len() + (i
                        - before.len())]@);
                }
            }
            assert(a =~= b);
        }
    }

    /// Several verdicts collapsed into one.
    pub fn worst(all: &Vec<Readiness>) -> (r: Readiness)
        ensures
            r@ == worst_verdict(verdicts(all@)),
    {
        let mut status = FitStatus::Converged;
        let mut reasons: Vec<Message> = Vec::new();
        let mut k: usize = 0;
        proof {
            assert(sentences(reasons@) =~= Seq::<Seq<Piece>>::empty());
        }
        while k < all.len()
            invariant
                k <= all@.len(),
                status == worst_status(verdicts(all@).take(k as int)),
                sentences(reasons@) == all_reasons(verdicts(all@).take(k as int)),
            decreases all@.len() - k,
        {
            proof {
                assert(verdicts(all@).take(k + 1).drop_last() =~= verdicts(all@).take(k as int));
            }
            if all[k].status.rank() > status.rank() {
                status = all[k].status;
            }
            Readiness::append_reasons(&mut reasons, &all[k].reasons);
            k += 1;
        }
        proof {
            assert(verdicts(all@).take(k as int) =~= verdicts(all@));
        }
        Readiness { status, reasons }
    }

    /// How many of several verdicts do not allow acting.
    pub fn count_unready(all: &Vec<Readiness>) -> (r: usize)
        ensures
            r == unready_count(verdicts(all@)),
    {
        let mut n: usize = 0;
        let mut k: usize = 0;
        while k < all.len()
            invariant
                k <= all@.len(),
                n <= k,
                n == unready_count(verdicts(all@).take(k as int)),
            decreases all@.len() - k,
        {
            proof {
                assert(verdicts(all@).take(k + 1).drop_last() =~= verdicts(all@).take(k as int));
            }
            if !all[k].status.is_actionable() {
                n += 1;
            }
            k += 1;
        }
        proof {
            assert(verdicts(all@).take(k as int) =~= verdicts(all@));
        }
        n
    }

    /// The verdict with text put in front of each of its reasons.
    pub fn naming(&self, text: &str) -> (r: Readiness)
        ensures
            r@.status == self@.status,
            r@.reasons == Seq::new(
                self@.reasons.len(),
                |i: int| Message::saying(text@) + self@.reasons[i],
            ),
    {
        let mut reasons: Vec<Message> = Vec::new();
        let mut k: usize = 0;
        while k < self.reasons.len()
            invariant
                k <= self.reasons@.len(),
                reasons@.len() == k,
                forall|i: int|
                    0 <= i < k ==> (#[trigger] reasons@[i])@ == Message::saying(text@)
                        + self.reasons@[i]@,
            decreases self.reasons@.len() - k,
        {
            reasons.push(self.reasons[k].prefixed(text.to_owned()));
            k += 1;
        }
        let r = Readiness { status: self.status, reasons };
        proof {
            assert(r@.reasons =~= Seq::new(
                self@.reasons.len(),
                |i: int| Message::saying(text@) + self@.reasons[i],
            ));
        }
        r
    }
}

impl Clone for Readiness {
    fn clone(&self) -> (r: Self)
        ensures
            r@ == self@,
    {
        let mut reasons: Vec<Message> = Vec::new();
        Readiness::append_reasons(&mut reasons, &self.reasons);
        let r = Readiness { status: self.status, reasons };
        proof {
            assert(r@ =~= self@);
        }
        r
    }
}

} // verus!
