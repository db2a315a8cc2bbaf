//! What a check reports: breaches of an invariant under a stable label, and
//! coverage observations.

use vstd::prelude::*;

verus! {

/// The invariants that a run can breach.
#[derive(Clone, Copy, Debug, PartialEq, Eq, Structural)]
pub enum ViolationKind {
    StrandedPendingFire,
    WakeupLost,
    WakeupDupUnbounded,
    WakeupsExceedFires,
    ResumeOffGrid,
    OutboxMessageLost,
    OutboxMessageMultiplied,
    WakeupLockDoubleHold,
    AckedEventLost,
    HeadBehindEvents,
}

impl ViolationKind {
    /// The label under which breaches of the invariant aggregate.
    pub open spec fn label_text(self) -> Seq<char> {
        match self {
            ViolationKind::StrandedPendingFire => "sched-stranded-pending-fire"@,
            ViolationKind::WakeupLost => "sched-wakeup-lost"@,
            ViolationKind::WakeupDupUnbounded => "sched-wakeup-dup-unbounded"@,
            ViolationKind::WakeupsExceedFires => "sched-wakeups-exceed-fires"@,
            ViolationKind::ResumeOffGrid => "sched-resume-off-grid"@,
            ViolationKind::OutboxMessageLost => "outbox-message-lost"@,
            ViolationKind::OutboxMessageMultiplied => "outbox-message-multiplied"@,
            ViolationKind::WakeupLockDoubleHold => "wakeup-lock-double-hold"@,
            ViolationKind::AckedEventLost => "eventlog-acked-event-lost"@,
            ViolationKind::HeadBehindEvents => "eventlog-head-behind-events"@,
        }
    }

    /// The label under which breaches of the invariant aggregate.
    pub fn label(self) -> (r: &'static str)
        ensures
            r@ == self.label_text(),
    {
        match self {
            ViolationKind::StrandedPendingFire => "sched-stranded-pending-fire",
            ViolationKind::WakeupLost => "sched-wakeup-lost",
            ViolationKind::WakeupDupUnbounded => "sched-wakeup-dup-unbounded",
            ViolationKind::WakeupsExceedFires => "sched-wakeups-exceed-fires",
            ViolationKind::ResumeOffGrid => "sched-resume-off-grid",
            ViolationKind::OutboxMessageLost => "outbox-message-lost",
            ViolationKind::OutboxMessageMultiplied => "outbox-message-multiplied",
            ViolationKind::WakeupLockDoubleHold => "wakeup-lock-double-hold",
            ViolationKind::AckedEventLost => "eventlog-acked-event-lost",
            ViolationKind::HeadBehindEvents => "eventlog-head-behind-events",
        }
    }
}

/// Situations that a good seed corpus reaches sometimes.
#[derive(Clone, Copy, Debug, PartialEq, Eq, Structural)]
pub enum Coverage {
    WakeupBoundedRepeat,
    FiresDelivered,
    LeaseLiveAtQuiescence,
    OneShotCompleted,
    OutboxTerminalFailure,
    WakeupLockSerialized,
    UncommittedTailSurvived,
}

/// One thing that a check reports.
#[derive(Debug)]
pub enum Finding {
    /// An invariant is breached; the text says where.
    Violation(ViolationKind, String),
    /// Whether a situation was reached.
    Observed(Coverage, bool),
}

/// A finding, with its text as characters.
pub enum FindingView {
    Violation(ViolationKind, Seq<char>),
    Observed(Coverage, bool),
}

impl View for Finding {
    type V = FindingView;

    open spec fn view(&self) -> FindingView {
        match *self {
            Finding::Violation(kind, detail) => FindingView::Violation(kind, detail@),
            Finding::Observed(point, reached) => FindingView::Observed(point, reached),
        }
    }
}

/// The findings of a list.
pub open spec fn views(s: Seq<Finding>) -> Seq<FindingView> {
    s.map_values(|f: Finding| f@)
}

/// Whether no finding is a breach.
pub open spec fn no_violation(s: Seq<FindingView>) -> bool {
    forall|i: int| 0 <= i < s.len() ==> !(#[trigger] s[i] is Violation)
}

/// Reports a breach if there is one.
pub open spec fn breach_if(
    breached: bool,
    kind: ViolationKind,
    detail: Seq<char>,
) -> Seq<FindingView> {
    if breached {
        seq![FindingView::Violation(kind, detail)]
    } else {
        Seq::empty()
    }
}

/// How many breaches a report holds.
pub open spec fn violation_count(s: Seq<FindingView>) -> nat
    decreases s.len(),
{
    if s.len() == 0 {
        0
    } else {
        violation_count(s.drop_last()) + (if s.last() is Violation {
            1nat
        } else {
            0nat
        })
    }
}

/// Counts the breaches of a report.
pub fn count_violations(report: &Vec<Finding>) -> (r: u64)
    ensures
        r == violation_count(views(report@)),
        r <= report@.len(),
{
    let ghost all = views(report@);
    let mut n: u64 = 0;
    let mut i: usize = 0;
    while i < report.len()
        invariant
            all == views(report@),
            i <= report@.len(),
            n == violation_count(all.take(i as int)),
            n <= i,
        decreases report@.len() - i,
    {
        proof {
            assert(all.take(i + 1).drop_last() =~= all.take(i as int));
            assert(all.take(i + 1).last() == report@[i as int]@);
        }
        assert(i < report.len());
        if let Finding::Violation(_, _) = &report[i] {
            n = n + 1;
        }
        i = i + 1;
    }
    assert(all.take(i as int) =~= all);
    n
}

/// Adds a breach to a report.
pub(crate) fn report_violation(out: &mut Vec<Finding>, kind: ViolationKind, detail: String)
    ensures
        views(final(out)@) == views(old(out)@) + breach_if(true, kind, detail@),
{
    out.push(Finding::Violation(kind, detail));
    assert(views(out@) =~= views(old(out)@) + breach_if(true, kind, detail@));
}

/// Adds a coverage observation to a report.
pub(crate) fn report_coverage(out: &mut Vec<Finding>, point: Coverage, reached: bool)
    ensures
        views(final(out)@) == views(old(out)@) + seq![FindingView::Observed(point, reached)],
{
    out.push(Finding::Observed(point, reached));
    assert(views(out@) =~= views(old(out)@) + seq![FindingView::Observed(point, reached)]);
}

/// Reports put one after the other hold a breach only where one of them does.
pub proof fn lemma_no_violation_concat(a: Seq<FindingView>, b: Seq<FindingView>)
    ensures
        no_violation(a + b) <==> no_violation(a) && no_violation(b),
{
    if no_violation(a + b) {
        assert forall|i: int| 0 <= i < a.len() implies !(#[trigger] a[i] is Violation) by {
            assert((a + b)[i] == a[i]);
        }
        assert forall|i: int| 0 <= i < b.len() implies !(#[trigger] b[i] is Violation) by {
            assert((a + b)[a.len() + i] == b[i]);
        }
    }
}

/// A report counts no breach exactly when it holds none.
pub proof fn law_count_is_zero_without_breach(s: Seq<FindingView>)
    ensures
        violation_count(s) == 0 <==> no_violation(s),
    decreases s.len(),
{
    if s.len() > 0 {
        let front = s.drop_last();
        law_count_is_zero_without_breach(front);
        assert(s =~= front + seq![s.last()]);
        lemma_no_violation_concat(front, seq![s.last()]);
        assert(no_violation(seq![s.last()]) <==> !(s.last() is Violation)) by {
            assert(seq![s.last()][0] == s.last());
        }
    }
}

/// The texts of a report's breaches of one kind, in the order of the report.
pub open spec fn details(report: Seq<FindingView>, kind: ViolationKind) -> Seq<Seq<char>> {
    report.filter_map(
        |f: FindingView| match f {
            FindingView::Violation(k, detail) => if k == kind {
                Some(detail)
            } else {
                None
            },
            FindingView::Observed(_, _) => None,
        },
    )
}

/// What a report observes of one situation, in the order of the report.
pub open spec fn observations(report: Seq<FindingView>, point: Coverage) -> Seq<bool> {
    report.filter_map(
        |f: FindingView| match f {
            FindingView::Violation(_, _) => None,
            FindingView::Observed(p, reached) => if p == point {
                Some(reached)
            } else {
                None
            },
        },
    )
}

/// What is selected from two lists put together is what is selected from each.
pub(crate) proof fn lemma_filter_map_concat<A, B>(a: Seq<A>, b: Seq<A>, f: spec_fn(A) -> Option<B>)
    ensures
        (a + b).filter_map(f) == a.filter_map(f) + b.filter_map(f),
    decreases b.len(),
{
    if b.len() == 0 {
        assert(a + b =~= a);
    } else {
        lemma_filter_map_concat(a, b.drop_last(), f);
        assert((a + b).drop_last() =~= a + b.drop_last());
        assert((a + b).last() == b.last());
        assert((a + b).filter_map(f) =~= a.filter_map(f) + b.filter_map(f));
    }
}

/// The breaches and observations of a report with a second one behind it.
pub(crate) proof fn lemma_reports_concat(a: Seq<FindingView>, b: Seq<FindingView>)
    ensures
        forall|kind: ViolationKind| #[trigger] details(a + b, kind) == details(a, kind) + details(b, kind),
        forall|point: Coverage| #[trigger]
            observations(a + b, point) == observations(a, point) + observations(b, point),
{
    assert forall|kind: ViolationKind| #[trigger] details(a + b, kind) == details(a, kind) + details(
        b,
        kind,
    ) by {
        lemma_filter_map_concat(
            a,
            b,
            |f: FindingView| match f {
                FindingView::Violation(k, detail) => if k == kind {
                    Some(detail)
                } else {
                    None
                },
                FindingView::Observed(_, _) => None,
            },
        );
    }
    assert forall|point: Coverage| #[trigger] observations(a + b, point) == observations(a, point)
        + observations(b, point) by {
        lemma_filter_map_concat(
            a,
            b,
            |f: FindingView| match f {
                FindingView::Violation(_, _) => None,
                FindingView::Observed(p, reached) => if p == point {
                    Some(reached)
                } else {
                    None
                },
            },
        );
    }
}

/// A report of one finding, and one of none.
pub(crate) proof fn lemma_report_of_one(f: FindingView)
    ensures
        forall|kind: ViolationKind| #[trigger]
            details(seq![f], kind) == (match f {
                FindingView::Violation(k, detail) if k == kind => seq![detail],
                _ => Seq::empty(),
            }),
        forall|point: Coverage| #[trigger]
            observations(seq![f], point) == (match f {
                FindingView::Observed(p, reached) if p == point => seq![reached],
                _ => Seq::empty(),
            }),
        forall|kind: ViolationKind| #[trigger] details(Seq::empty(), kind) == Seq::<Seq<char>>::empty(),
        forall|point: Coverage| #[trigger] observations(Seq::empty(), point) == Seq::<bool>::empty(),
{
    reveal_with_fuel(Seq::filter_map, 3);
    assert(seq![f].drop_last() =~= Seq::<FindingView>::empty());
    assert forall|kind: ViolationKind| #[trigger] details(seq![f], kind) == (match f {
        FindingView::Violation(k, detail) if k == kind => seq![detail],
        _ => Seq::empty(),
    }) by {
        assert(details(seq![f], kind) =~= (match f {
            FindingView::Violation(k, detail) if k == kind => seq![detail],
            _ => Seq::empty(),
        }));
    }
    assert forall|point: Coverage| #[trigger] observations(seq![f], point) == (match f {
        FindingView::Observed(p, reached) if p == point => seq![reached],
        _ => Seq::empty(),
    }) by {
        assert(observations(seq![f], point) =~= (match f {
            FindingView::Observed(p, reached) if p == point => seq![reached],
            _ => Seq::empty(),
        }));
    }
}

/// A conditional breach as a report.
pub(crate) proof fn lemma_report_of_breach(breached: bool, kind: ViolationKind, detail: Seq<char>)
    ensures
        forall|k: ViolationKind| #[trigger]
            details(breach_if(breached, kind, detail), k) == (if breached && k == kind {
                seq![detail]
            } else {
                Seq::empty()
            }),
        forall|point: Coverage| #[trigger]
            observations(breach_if(breached, kind, detail), point) == Seq::<bool>::empty(),
{
    lemma_report_of_one(FindingView::Violation(kind, detail));
}

/// Every breach counts, whatever its kind and whatever else is reported: the
/// count of a report is the number of its places that hold a breach, and the
/// breaches of each kind together.
pub proof fn law_every_breach_counts(report: Seq<FindingView>)
    ensures
        violation_count(report) == report.filter(|f: FindingView| f is Violation).len(),
        violation_count(report) == details(report, ViolationKind::StrandedPendingFire).len()
            + details(report, ViolationKind::WakeupLost).len() + details(
            report,
            ViolationKind::WakeupDupUnbounded,
        ).len() + details(report, ViolationKind::WakeupsExceedFires).len() + details(
            report,
            ViolationKind::ResumeOffGrid,
        ).len() + details(report, ViolationKind::OutboxMessageLost).len() + details(
            report,
            ViolationKind::OutboxMessageMultiplied,
        ).len() + details(report, ViolationKind::WakeupLockDoubleHold).len() + details(
            report,
            ViolationKind::AckedEventLost,
        ).len() + details(report, ViolationKind::HeadBehindEvents).len(),
    decreases report.len(),
{
    reveal(Seq::filter);
    if report.len() > 0 {
        let front = report.drop_last();
        law_every_breach_counts(front);
        assert(report =~= front + seq![report.last()]);
        lemma_reports_concat(front, seq![report.last()]);
        lemma_report_of_one(report.last());
    }
}

/// A finding is read as it was reported.
pub proof fn law_report_is_read_as_it_stands(report: Seq<Finding>)
    ensures
        views(report).len() == report.len(),
        forall|i: int|
            0 <= i < report.len() ==> #[trigger] views(report)[i] == (match report[i] {
                Finding::Violation(kind, detail) => FindingView::Violation(kind, detail@),
                Finding::Observed(point, reached) => FindingView::Observed(point, reached),
            }),
{
}

/// Every invariant has a label of its own.
#[verifier::spinoff_prover]
pub proof fn law_labels_are_distinct(a: ViolationKind, b: ViolationKind)
    requires
        a.label_text() == b.label_text(),
    ensures
        a == b,
{
    reveal_strlit("sched-stranded-pending-fire");
    reveal_strlit("sched-wakeup-lost");
    reveal_strlit("sched-wakeup-dup-unbounded");
    reveal_strlit("sched-wakeups-exceed-fires");
    reveal_strlit("sched-resume-off-grid");
    reveal_strlit("outbox-message-lost");
    reveal_strlit("outbox-message-multiplied");
    reveal_strlit("wakeup-lock-double-hold");
    reveal_strlit("eventlog-acked-event-lost");
    reveal_strlit("eventlog-head-behind-events");
    assert("sched-stranded-pending-fire"@.len() == 27 && "sched-stranded-pending-fire"@[12] == 'e');
    assert("sched-wakeup-lost"@.len() == 17 && "sched-wakeup-lost"@[12] == '-');
    assert("sched-wakeup-dup-unbounded"@.len() == 26 && "sched-wakeup-dup-unbounded"@[12] == '-');
    assert("sched-wakeups-exceed-fires"@.len() == 26 && "sched-wakeups-exceed-fires"@[12] == 's');
    assert("sched-resume-off-grid"@.len() == 21 && "sched-resume-off-grid"@[12] == '-');
    assert("outbox-message-lost"@.len() == 19 && "outbox-message-lost"@[12] == 'g');
    assert("outbox-message-multiplied"@.len() == 25 && "outbox-message-multiplied"@[12] == 'g');
    assert("wakeup-lock-double-hold"@.len() == 23 && "wakeup-lock-double-hold"@[12] == 'd');
    assert("eventlog-acked-event-lost"@.len() == 25 && "eventlog-acked-event-lost"@[12] == 'e');
    assert("eventlog-head-behind-events"@.len() == 27 && "eventlog-head-behind-events"@[12] == 'd');
    let s = a.label_text();
    let t = b.label_text();
    assert(s.len() == t.len() && s[12] == t[12]);
}

/// A conditional breach is free of breaches exactly when its condition fails.
pub proof fn lemma_no_violation_breach(breached: bool, kind: ViolationKind, detail: Seq<char>)
    ensures
        no_violation(breach_if(breached, kind, detail)) <==> !breached,
{
    if breached {
        assert(breach_if(breached, kind, detail)[0] is Violation);
    }
}

} // verus!
